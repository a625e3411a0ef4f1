//! Building big integers from machine integers and from digit vectors.
use crate::big_int::{strip_leading_zeros, BigInt};
use crate::digits::{base_digits, base_value, digits_value, is_canonical, lemma_base_digits, trim};
use crate::laws::{law_from_digits, law_from_i32, law_from_isize, law_from_unsigned};
use vstd::arithmetic::power2::{lemma2_to64, lemma2_to64_rest, pow2};
use vstd::prelude::*;
use vstd::std_specs::convert::FromSpecImpl;

verus! {

/// Bits in a digit of the base that `From<i64>` and `From<u64>` use: two fewer than a
/// machine word has.
pub const BASE: u32 = usize::BITS - 2;

/// The absolute value of `n`.
pub open spec fn int_magnitude(n: int) -> nat {
    if n < 0 {
        (-n) as nat
    } else {
        n as nat
    }
}

/// The big integer with one digit, `magnitude`, and sign `negative`.
pub open spec fn one_digit(magnitude: nat, negative: bool) -> BigInt {
    choose|r: BigInt| r.digits@ == seq![magnitude as usize] && r.negative == negative
}

impl From<isize> for BigInt {
    /// One digit holding `|n|`, negative when `n` is.
    fn from(n: isize) -> (r: Self)
        ensures
            r.digits@ == seq![int_magnitude(n as int) as usize],
            r.negative == (n < 0),
            r.int_value() == n,
            r.is_normal(),
    {
        proof {
            law_from_isize(n);
        }
        if n == isize::MIN {
            BigInt { digits: vec![isize::MAX as usize + 1], negative: true }
        } else if n < 0 {
            let magnitude = (-n) as usize;
            BigInt { digits: vec![magnitude], negative: true }
        } else {
            let r = BigInt { digits: vec![n as usize], negative: false };
        proof {
            assert(r.digits@ =~= seq![n as usize]);
        }
        r
        }
    }
}

impl FromSpecImpl<isize> for BigInt {
    /// The result is not claimed equal to `from_spec`: a `Vec` is not fixed by its
    /// contents in specifications. The contract of `from` states its digits and sign.
    open spec fn obeys_from_spec() -> bool {
        false
    }

    open spec fn from_spec(n: isize) -> Self {
        one_digit(int_magnitude(n as int), n < 0)
    }
}

impl From<usize> for BigInt {
    /// One digit holding `n`, not negative.
    fn from(n: usize) -> (r: Self)
        ensures
            r.digits@ == seq![n],
            !r.negative,
            r.int_value() == n,
            r.is_normal(),
    {
        proof {
            law_from_unsigned(n);
        }
        let r = BigInt { digits: vec![n], negative: false };
        proof {
            assert(r.digits@ =~= seq![n]);
        }
        r
    }
}

impl FromSpecImpl<usize> for BigInt {
    /// The result is not claimed equal to `from_spec`: a `Vec` is not fixed by its
    /// contents in specifications. The contract of `from` states its digits and sign.
    open spec fn obeys_from_spec() -> bool {
        false
    }

    open spec fn from_spec(n: usize) -> Self {
        one_digit(n as nat, false)
    }
}

impl From<i32> for BigInt {
    /// One digit holding `|n|`, negative when `n` is.
    fn from(n: i32) -> (r: Self)
        ensures
            r.digits@ == seq![int_magnitude(n as int) as usize],
            r.negative == (n < 0),
            r.int_value() == n,
            r.is_normal(),
    {
        proof {
            law_from_i32(n);
        }
        if n < 0 {
            let magnitude = (-(n as i64)) as usize;
            BigInt { digits: vec![magnitude], negative: true }
        } else {
            let r = BigInt { digits: vec![n as usize], negative: false };
        proof {
            assert(r.digits@ =~= seq![n as usize]);
        }
        r
        }
    }
}

impl FromSpecImpl<i32> for BigInt {
    /// The result is not claimed equal to `from_spec`: a `Vec` is not fixed by its
    /// contents in specifications. The contract of `from` states its digits and sign.
    open spec fn obeys_from_spec() -> bool {
        false
    }

    open spec fn from_spec(n: i32) -> Self {
        one_digit(int_magnitude(n as int), n < 0)
    }
}

impl From<u32> for BigInt {
    /// One digit holding `n`, not negative.
    fn from(n: u32) -> (r: Self)
        ensures
            r.digits@ == seq![n as usize],
            !r.negative,
            r.int_value() == n,
            r.is_normal(),
    {
        proof {
            law_from_unsigned(n as usize);
        }
        let r = BigInt { digits: vec![n as usize], negative: false };
        proof {
            assert(r.digits@ =~= seq![n as usize]);
        }
        r
    }
}

impl FromSpecImpl<u32> for BigInt {
    /// The result is not claimed equal to `from_spec`: a `Vec` is not fixed by its
    /// contents in specifications. The contract of `from` states its digits and sign.
    open spec fn obeys_from_spec() -> bool {
        false
    }

    open spec fn from_spec(n: u32) -> Self {
        one_digit(n as nat, false)
    }
}

/// The big integer with digits `digits` and sign `negative`.
pub open spec fn with_digits(digits: Seq<usize>, negative: bool) -> BigInt {
    choose|r: BigInt| r.digits@ == digits && r.negative == negative
}

impl From<i64> for BigInt {
    /// The digits of `|n|` in base `BASE` (the number of bits, not a power of two), least
    /// significant first and none for zero; negative when `n` is.
    fn from(n: i64) -> (r: Self)
        ensures
            r.digits@ == base_digits(int_magnitude(n as int), BASE as nat),
            r.negative == (n < 0),
            base_value(r.digits@, BASE as nat) == int_magnitude(n as int),
            forall|i: int| 0 <= i < r.digits@.len() ==> r.digits@[i] < BASE,
            r.digits@.len() > 0 ==> r.digits@.last() != 0,
    {
        proof {
            lemma_base_digits(int_magnitude(n as int), BASE as nat);
        }
        let base = BASE as u64;
        let mut digits: Vec<usize> = Vec::new();
        let mut num: u64 = if n == i64::MIN {
            0x8000_0000_0000_0000
        } else if n < 0 {
            (-n) as u64
        } else {
            n as u64
        };
        let ghost all = base_digits(int_magnitude(n as int), base as nat);
        while num > 0
            invariant
                base == BASE,
                base >= 30,
                digits@ + base_digits(num as nat, base as nat) == all,
            decreases num,
        {
            let ghost before = digits@;
            digits.push((num % base) as usize);
            assert(base_digits(num as nat, base as nat) == seq![(num % base) as usize]
                + base_digits((num / base) as nat, base as nat));
            assert(before + base_digits(num as nat, base as nat) =~= digits@ + base_digits(
                (num / base) as nat,
                base as nat,
            ));
            num /= base;
        }
        proof {
            assert(digits@ + base_digits(0, base as nat) =~= digits@);
        }
        BigInt { digits, negative: n < 0 }
    }
}

impl FromSpecImpl<i64> for BigInt {
    /// The result is not claimed equal to `from_spec`: a `Vec` is not fixed by its
    /// contents in specifications. The contract of `from` states its digits and sign.
    open spec fn obeys_from_spec() -> bool {
        false
    }

    open spec fn from_spec(n: i64) -> Self {
        with_digits(base_digits(int_magnitude(n as int), BASE as nat), n < 0)
    }
}

impl From<u64> for BigInt {
    /// The digits of `n` in base `2` to the power `BASE`, least significant first and
    /// none for zero; not negative.
    fn from(n: u64) -> (r: Self)
        ensures
            r.digits@ == base_digits(n as nat, pow2(BASE as nat)),
            !r.negative,
            base_value(r.digits@, pow2(BASE as nat)) == n,
            forall|i: int| 0 <= i < r.digits@.len() ==> r.digits@[i] < pow2(BASE as nat),
            r.digits@.len() > 0 ==> r.digits@.last() != 0,
    {
        proof {
            lemma2_to64();
            lemma2_to64_rest();
            lemma_base_digits(n as nat, pow2(BASE as nat));
        }
        let base: u64 = 1 << BASE;
        proof {
            lemma2_to64();
            lemma2_to64_rest();
            if BASE == 62 {
                assert(1u64 << 62u32 == 0x4000_0000_0000_0000u64) by (bit_vector);
            } else {
                assert(1u64 << 30u32 == 0x4000_0000u64) by (bit_vector);
            }
        }
        let mut digits: Vec<usize> = Vec::new();
        let mut num = n;
        let ghost all = base_digits(n as nat, base as nat);
        while num > 0
            invariant
                base == pow2(BASE as nat),
                base >= 2,
                digits@ + base_digits(num as nat, base as nat) == all,
            decreases num,
        {
            let ghost before = digits@;
            digits.push((num % base) as usize);
            assert(base_digits(num as nat, base as nat) == seq![(num % base) as usize]
                + base_digits((num / base) as nat, base as nat));
            assert(before + base_digits(num as nat, base as nat) =~= digits@ + base_digits(
                (num / base) as nat,
                base as nat,
            ));
            num /= base as u64;
        }
        proof {
            assert(digits@ + base_digits(0, base as nat) =~= digits@);
        }
        BigInt { digits, negative: false }
    }
}

impl FromSpecImpl<u64> for BigInt {
    /// The result is not claimed equal to `from_spec`: a `Vec` is not fixed by its
    /// contents in specifications. The contract of `from` states its digits and sign.
    open spec fn obeys_from_spec() -> bool {
        false
    }

    open spec fn from_spec(n: u64) -> Self {
        with_digits(base_digits(n as nat, pow2(BASE as nat)), false)
    }
}

impl From<Vec<usize>> for BigInt {
    /// `digits` with its most significant zero digits removed (one digit at least is
    /// kept, none if there were none); not negative.
    fn from(digits: Vec<usize>) -> (r: Self)
        ensures
            r.digits@ == trim(digits@),
            !r.negative,
            r.magnitude() == digits_value(digits@),
            digits@.len() > 0 ==> is_canonical(r.digits@),
            digits@.len() == 0 ==> r.digits@.len() == 0,
    {
        proof {
            law_from_digits(digits@);
        }
        let mut digits = digits;
        strip_leading_zeros(&mut digits);
        BigInt { digits, negative: false }
    }
}

impl FromSpecImpl<Vec<usize>> for BigInt {
    /// The result is not claimed equal to `from_spec`: a `Vec` is not fixed by its
    /// contents in specifications. The contract of `from` states its digits and sign.
    open spec fn obeys_from_spec() -> bool {
        false
    }

    open spec fn from_spec(digits: Vec<usize>) -> Self {
        with_digits(trim(digits@), false)
    }
}

} // verus!
