//! Laws of the big integer operations, stated over their models.
use crate::big_int::{
    add_is_exact, difference_negative, difference_of, fits_common_positions, lost_borrows,
    minuend, signed_value, shape_order_agrees, subtrahend, sum_digits, sum_negative,
    wrapped_difference, BigInt,
};
use crate::conversions::{int_magnitude, BASE};
use crate::columns::{
    borrow_from_top, borrow_into, column_difference, difference_digits, lemma_borrow_from_top_len,
    lemma_column_difference_value, lemma_columns_exact, no_wrapped_borrow,
};
use crate::digits::{
    base_digits, canonical_digits, digits_less, digits_value, is_canonical,
    lemma_canonical_digits_value, lemma_canonical_unique, lemma_digits_less_value,
    digit_at, lemma_fixed_digits_value, lemma_less_from_top_value, lemma_trim,
    lemma_value_below_bound, lemma_value_below_past_end, lemma_value_first_digit, radix, trim,
    value_below, weight,
};
use vstd::arithmetic::div_mod::{lemma_basic_div, lemma_small_mod};
use vstd::arithmetic::power2::{lemma2_to64, lemma2_to64_rest, pow2};
use vstd::prelude::*;

verus! {

/// Subtracting a magnitude from one with at least as many digits and at least its value,
/// with no wrapped borrow, leaves digits of the difference.
proof fn lemma_difference_value(big: Seq<usize>, small: Seq<usize>)
    requires
        small.len() <= big.len(),
        digits_value(small) <= digits_value(big),
        no_wrapped_borrow(big, small),
    ensures
        digits_value(difference_digits(big, small)) == digits_value(big) - digits_value(small),
{
    lemma_columns_exact(big, small, big.len());
    lemma_value_below_past_end(small, big.len());
    assert(!borrow_into(big, small, big.len()));
    let d = column_difference(big, small);
    lemma_trim(d);
}

/// Subtracting a canonical magnitude from a canonical magnitude that is not smaller,
/// with no wrapped borrow, leaves the canonical digits of the difference.
proof fn lemma_difference_exact(big: Seq<usize>, small: Seq<usize>)
    requires
        is_canonical(big),
        is_canonical(small),
        small.len() <= big.len(),
        digits_value(small) <= digits_value(big),
        no_wrapped_borrow(big, small),
    ensures
        digits_value(difference_digits(big, small)) == digits_value(big) - digits_value(small),
        is_canonical(difference_digits(big, small)),
{
    lemma_difference_value(big, small);
    lemma_trim(column_difference(big, small));
}

/// The shape of what the subtraction of magnitudes leaves: no digits exactly when the
/// minuend has none, canonical digits otherwise.
proof fn lemma_difference_shape(big: Seq<usize>, small: Seq<usize>)
    ensures
        difference_digits(big, small).len() == 0 <==> big.len() == 0,
        big.len() > 0 ==> is_canonical(difference_digits(big, small)),
{
    let d = column_difference(big, small);
    lemma_borrow_from_top_len(d);
    lemma_trim(d);
    lemma_trim(borrow_from_top(d));
}

/// Adding big integers gives the sum of their values, whatever their digits, whenever
/// `add_is_exact` holds: always for one sign; for opposite signs when the operand taken
/// as the larger magnitude has the larger value and no borrow wraps.
pub proof fn law_add_exact(a: BigInt, b: BigInt)
    requires
        add_is_exact(a, b),
    ensures
        signed_value(sum_digits(a, b), sum_negative(a, b)) == a.int_value() + b.int_value(),
{
    let s = sum_digits(a, b);
    lemma_canonical_digits_value(0);
    assert(canonical_digits(0) =~= seq![0usize]);
    if a.negative == b.negative {
        if a.digits@.len() > 0 || b.digits@.len() > 0 {
            lemma_canonical_digits_value(a.magnitude() + b.magnitude());
        } else {
            assert(digits_value(s) == 0);
        }
    } else if digits_less(a.digits@, b.digits@) {
        lemma_difference_value(b.digits@, a.digits@);
    } else {
        lemma_difference_value(a.digits@, b.digits@);
    }
}

/// Adding operands of opposite signs takes the subtrahend's magnitude from the
/// minuend's: the result's magnitude plus the subtrahend's is the minuend's plus the
/// weight of the borrows the columns lose, whenever the subtrahend's magnitude is not
/// above that; and a nonzero result has the minuend's sign.
pub proof fn law_add_opposite_signs(a: BigInt, b: BigInt)
    requires
        a.negative != b.negative,
    ensures
        subtrahend(a, b).magnitude() <= minuend(a, b).magnitude() + lost_borrows(a, b) ==> digits_value(
            sum_digits(a, b),
        ) + subtrahend(a, b).magnitude() == minuend(a, b).magnitude() + lost_borrows(a, b),
        digits_value(sum_digits(a, b)) > 0 ==> sum_negative(a, b) == minuend(a, b).negative,
{
    let big = minuend(a, b).digits@;
    let small = subtrahend(a, b).digits@;
    if subtrahend(a, b).magnitude() <= minuend(a, b).magnitude() + lost_borrows(a, b) {
        lemma_column_difference_value(big, small);
        lemma_trim(column_difference(big, small));
    }
    lemma_canonical_digits_value(0);
    assert(canonical_digits(0) =~= seq![0usize]);
}

/// The shape of a sum: no digits exactly when neither operand has any, canonical digits
/// otherwise, and a negative zero only from two operands of value zero.
pub proof fn law_add_shape(a: BigInt, b: BigInt)
    ensures
        sum_digits(a, b).len() == 0 <==> a.digits@.len() == 0 && b.digits@.len() == 0,
        sum_digits(a, b).len() > 0 ==> is_canonical(sum_digits(a, b)),
        sum_negative(a, b) && digits_value(sum_digits(a, b)) == 0 ==> a.magnitude() == 0
            && b.magnitude() == 0,
{
    let s = sum_digits(a, b);
    lemma_canonical_digits_value(0);
    assert(canonical_digits(0) =~= seq![0usize]);
    if a.negative == b.negative {
        if a.digits@.len() > 0 || b.digits@.len() > 0 {
            lemma_canonical_digits_value(a.magnitude() + b.magnitude());
        } else {
            assert(s.len() == 0);
            assert(a.magnitude() == 0 && b.magnitude() == 0);
        }
    } else {
        if digits_less(a.digits@, b.digits@) {
            lemma_difference_shape(b.digits@, a.digits@);
        } else {
            lemma_difference_shape(a.digits@, b.digits@);
        }
        if s.len() > 0 && digits_value(s) == 0 {
            lemma_canonical_unique(s);
        }
        if s.len() == 0 {
            assert(a.digits@.len() == 0 && b.digits@.len() == 0);
            assert(a.magnitude() == 0 && b.magnitude() == 0);
        }
    }
}

/// Adding two normal big integers gives a normal big integer that denotes the sum of
/// their values, whenever the addition does not panic (operands of opposite signs where
/// `b` has more digits than `a`) and, for operands of opposite signs, no column of the
/// subtraction of the smaller magnitude from the larger meets a subtrahend digit of
/// `usize::MAX` together with an incoming borrow.
pub proof fn law_add_value(a: BigInt, b: BigInt)
    requires
        a.is_normal(),
        b.is_normal(),
        a.negative != b.negative ==> b.digits@.len() <= a.digits@.len(),
        a.negative != b.negative ==> if digits_less(a.digits@, b.digits@) {
            no_wrapped_borrow(b.digits@, a.digits@)
        } else {
            no_wrapped_borrow(a.digits@, b.digits@)
        },
    ensures
        signed_value(sum_digits(a, b), sum_negative(a, b)) == a.int_value() + b.int_value(),
        is_canonical(sum_digits(a, b)),
        !(sum_negative(a, b) && digits_value(sum_digits(a, b)) == 0),
{
    if a.negative == b.negative {
        lemma_canonical_digits_value(a.magnitude() + b.magnitude());
    } else {
        lemma_digits_less_value(a.digits@, b.digits@);
        let s = sum_digits(a, b);
        if digits_less(a.digits@, b.digits@) {
            lemma_difference_exact(b.digits@, a.digits@);
        } else {
            lemma_difference_exact(a.digits@, b.digits@);
        }
        if digits_value(s) == 0 {
            lemma_canonical_unique(s);
            assert(canonical_digits(0) =~= seq![0usize]);
        } else {
            lemma_canonical_digits_value(0);
            assert(canonical_digits(0) =~= seq![0usize]);
        }
    }
}

/// Addition gives the same digits and sign in either order, whenever neither order
/// panics (operands of opposite signs then have digit vectors of one length) and the
/// operands are not two empty digit vectors of opposite signs (which keep the sign of
/// the left operand).
pub proof fn law_add_commutative(a: BigInt, b: BigInt)
    requires
        a.negative != b.negative ==> a.digits@.len() == b.digits@.len(),
        !(a.negative != b.negative && a.digits@.len() == 0),
    ensures
        sum_digits(a, b) == sum_digits(b, a),
        sum_negative(a, b) == sum_negative(b, a),
{
    if a.negative != b.negative {
        let n = a.digits@.len();
        lemma_less_from_top_value(a.digits@, b.digits@, n);
        if !digits_less(a.digits@, b.digits@) && !digits_less(b.digits@, a.digits@) {
            assert forall|j: int| 0 <= j < n implies a.digits@[j] == b.digits@[j] by {
                assert(digit_at(a.digits@, j) == digit_at(b.digits@, j));
            }
            assert(a.digits@ =~= b.digits@);
            let d = difference_digits(a.digits@, a.digits@);
            lemma_columns_exact(a.digits@, a.digits@, n);
            lemma_value_below_bound(column_difference(a.digits@, a.digits@), n);
            lemma_trim(column_difference(a.digits@, a.digits@));
            lemma_canonical_unique(d);
            assert(canonical_digits(0) =~= seq![0usize]);
        }
    }
}

/// Adding two big integers of one sign, whatever their digits, gives the shortest digits
/// of the sum of their magnitudes (no digits when neither has any), with their sign.
pub proof fn law_add_same_sign(a: BigInt, b: BigInt)
    requires
        a.negative == b.negative,
        a.digits@.len() > 0 || b.digits@.len() > 0,
    ensures
        digits_value(sum_digits(a, b)) == a.magnitude() + b.magnitude(),
        is_canonical(sum_digits(a, b)),
        sum_negative(a, b) == a.negative,
{
    lemma_canonical_digits_value(a.magnitude() + b.magnitude());
}

/// The value of a single digit.
proof fn lemma_one_digit_value(d: usize)
    ensures
        digits_value(seq![d]) == d,
        is_canonical(seq![d]),
{
    let s = seq![d];
    lemma_value_first_digit(s);
    let tail = s.subrange(1, 1);
    assert(tail.len() == 0);
    assert(digits_value(tail) == 0);
    assert(radix() * digits_value(tail) == 0) by (nonlinear_arith)
        requires
            digits_value(tail) == 0,
    ;
}

/// `From<isize>` keeps the value and gives a normal big integer (zero is not negative).
pub proof fn law_from_isize(n: isize)
    ensures
        signed_value(seq![int_magnitude(n as int) as usize], n < 0) == n,
        is_canonical(seq![int_magnitude(n as int) as usize]),
{
    lemma_one_digit_value(int_magnitude(n as int) as usize);
}

/// `From<i32>` keeps the value and gives a normal big integer (zero is not negative).
pub proof fn law_from_i32(n: i32)
    ensures
        signed_value(seq![int_magnitude(n as int) as usize], n < 0) == n,
        is_canonical(seq![int_magnitude(n as int) as usize]),
{
    lemma_one_digit_value(int_magnitude(n as int) as usize);
}

/// `From<usize>` and `From<u32>` keep the value and give a normal big integer.
pub proof fn law_from_unsigned(n: usize)
    ensures
        signed_value(seq![n], false) == n,
        is_canonical(seq![n]),
{
    lemma_one_digit_value(n);
}

/// `From<i64>` keeps the value when `|n|` is below `BASE`, whose digits are then a single
/// digit or none.
pub proof fn law_from_i64_small(n: i64)
    requires
        int_magnitude(n as int) < BASE,
    ensures
        signed_value(base_digits(int_magnitude(n as int), BASE as nat), n < 0) == n,
{
    let m = int_magnitude(n as int);
    if m > 0 {
        lemma_small_mod(m, BASE as nat);
        lemma_basic_div(m as int, BASE as int);
        assert(base_digits(0, BASE as nat) =~= Seq::<usize>::empty());
        assert(base_digits(m, BASE as nat) =~= seq![m as usize]);
        lemma_one_digit_value(m as usize);
    } else {
        assert(digits_value(base_digits(0, BASE as nat)) == 0);
    }
}

/// `From<u64>` keeps the value when `n` is below `2` to the power `BASE`.
pub proof fn law_from_u64_small(n: u64)
    requires
        n < pow2(BASE as nat),
    ensures
        digits_value(base_digits(n as nat, pow2(BASE as nat))) == n,
{
    let b = pow2(BASE as nat);
    lemma2_to64();
    lemma2_to64_rest();
    assert(b >= 2 && b <= usize::MAX);
    if n > 0 {
        lemma_small_mod(n as nat, b);
        lemma_basic_div(n as int, b as int);
        assert(base_digits(0, b) =~= Seq::<usize>::empty());
        assert(base_digits(n as nat, b) =~= seq![n as usize]);
        lemma_one_digit_value(n as usize);
    } else {
        assert(digits_value(base_digits(0, b)) == 0);
    }
}

/// `From<Vec<usize>>` keeps the value of the digits, and gives canonical digits unless
/// there are none.
pub proof fn law_from_digits(digits: Seq<usize>)
    ensures
        digits_value(trim(digits)) == digits_value(digits),
        digits.len() > 0 ==> is_canonical(trim(digits)),
        digits.len() == 0 ==> trim(digits).len() == 0,
{
    lemma_trim(digits);
}

/// Subtracting big integers of one sign gives the difference of their values when both
/// magnitudes fit in the positions both have and `b`'s magnitude is not the larger.
pub proof fn law_sub_same_sign(a: BigInt, b: BigInt)
    requires
        a.negative == b.negative,
        value_below(a.digits@, common_len(a, b)) == a.magnitude(),
        value_below(b.digits@, common_len(a, b)) == b.magnitude(),
        b.magnitude() <= a.magnitude(),
    ensures
        signed_value(difference_of(a, b), difference_negative(a, b)) == a.int_value() - b.int_value(),
{
    let m = common_len(a, b);
    let v = (a.magnitude() - b.magnitude()) as nat;
    lemma_value_below_bound(a.digits@, m);
    lemma_small_mod(v, weight(m));
    lemma_fixed_digits_value(v, m);
}

/// The digits of a difference over the common positions: `m` of them, denoting the
/// difference of the values of those positions modulo `weight(m)`.
proof fn lemma_wrapped_difference(x: Seq<usize>, y: Seq<usize>, m: nat)
    requires
        m == if x.len() < y.len() {
            x.len()
        } else {
            y.len()
        },
    ensures
        wrapped_difference(x, y).len() == m,
        digits_value(wrapped_difference(x, y)) == (value_below(x, m) - value_below(y, m)) % (
        weight(m) as int),
{
    let v = ((value_below(x, m) - value_below(y, m)) % (weight(m) as int)) as nat;
    crate::digits::lemma_weight_positive(m);
    lemma_small_mod(v, weight(m));
    lemma_fixed_digits_value(v, m);
}

/// The shape of a difference: as many digits as both operands have; with one sign,
/// `a`'s sign and the difference of the common positions modulo their weight; with
/// opposite signs, not negative, and the magnitude that is less by `digits_less` taken
/// from the other in the same way.
pub proof fn law_sub_shape(a: BigInt, b: BigInt)
    ensures
        difference_of(a, b).len() == common_len(a, b),
        a.negative == b.negative ==> difference_negative(a, b) == a.negative,
        a.negative != b.negative ==> !difference_negative(a, b),
        a.negative == b.negative || !digits_less(a.digits@, b.digits@) ==> digits_value(
            difference_of(a, b),
        ) == (value_below(a.digits@, common_len(a, b)) - value_below(b.digits@, common_len(a, b)))
            % (weight(common_len(a, b)) as int),
        a.negative != b.negative && digits_less(a.digits@, b.digits@) ==> digits_value(
            difference_of(a, b),
        ) == (value_below(b.digits@, common_len(a, b)) - value_below(a.digits@, common_len(a, b)))
            % (weight(common_len(a, b)) as int),
{
    let m = common_len(a, b);
    lemma_wrapped_difference(a.digits@, b.digits@, m);
    lemma_wrapped_difference(b.digits@, a.digits@, m);
}

/// Subtracting big integers of opposite signs takes the smaller magnitude from the
/// larger: when both magnitudes fit in the positions both have and the operand taken
/// as the larger magnitude has the larger value, the result denotes `||a| - |b||`.
pub proof fn law_sub_opposite_signs(a: BigInt, b: BigInt)
    requires
        a.negative != b.negative,
        fits_common_positions(a, b),
        shape_order_agrees(a.digits@, b.digits@),
    ensures
        signed_value(difference_of(a, b), difference_negative(a, b)) == if a.magnitude()
            >= b.magnitude() {
            a.magnitude() - b.magnitude()
        } else {
            b.magnitude() - a.magnitude()
        },
{
    let m = common_len(a, b);
    law_sub_shape(a, b);
    lemma_value_below_bound(a.digits@, m);
    lemma_value_below_bound(b.digits@, m);
    if digits_less(a.digits@, b.digits@) {
        lemma_small_mod((b.magnitude() - a.magnitude()) as nat, weight(m));
    } else {
        lemma_small_mod((a.magnitude() - b.magnitude()) as nat, weight(m));
    }
}

/// How many digit positions `a` and `b` both have.
pub open spec fn common_len(a: BigInt, b: BigInt) -> nat {
    if a.digits@.len() < b.digits@.len() {
        a.digits@.len()
    } else {
        b.digits@.len()
    }
}

} // verus!
