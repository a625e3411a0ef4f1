# big_int

Signed integers of any size, held as a sign and a little-endian vector of
machine-word digits, with addition, subtraction, comparison and conversions,
verified with Verus.

- `src/digits.rs`: the model of a digit vector (its value, canonical form,
  trimming, the shape order) and the lemmas about it.
- `src/columns.rs`: models of the column loops of addition and subtraction.
- `src/big_int.rs`: `BigInt`, `abs`, `Default`, `Add`, `Sub`.
- `src/conversions.rs`: `From` for machine integers and digit vectors.
- `src/order.rs`: `PartialEq`, `PartialOrd` and the laws of the comparison.
- `src/laws.rs`: the laws of addition, subtraction and the conversions.
