//! The signed big integer, its model, and its construction.
use crate::columns::{
    bit, borrow_from_top, borrow_into, column_difference, column_digit, column_subtrahend,
    difference_digits, lemma_borrow_from_top_zero_top, lemma_borrow_step, lemma_carry_step,
    lemma_mod_radix_once, no_wrapped_borrow, wrapped_weight,
};
use crate::laws::{
    common_len, law_add_exact, law_add_opposite_signs, law_add_shape, law_sub_opposite_signs,
    law_sub_shape,
};
use crate::digits::{
    canonical_digits, digit_at, digits_less, digits_value, fixed_digits, is_canonical,
    lemma_canonical_unique, lemma_fixed_unique, lemma_less_from_top_irreflexive,
    lemma_less_from_top_value, lemma_trim, lemma_value_below_bound, lemma_value_below_past_end,
    lemma_value_push, radix, trim, value_below, weight,
};
use vstd::arithmetic::div_mod::lemma_fundamental_div_mod_converse;
use vstd::std_specs::ops::{AddSpecImpl, SubSpecImpl};
use vstd::prelude::*;

verus! {

/// A signed integer of any size: `digits` holds the magnitude, least significant
/// digit first, and `negative` the sign.
#[derive(Debug, Clone)]
pub struct BigInt {
    pub digits: Vec<usize>,
    pub negative: bool,
}

/// The signed integer that a magnitude's digits and a sign denote.
pub open spec fn signed_value(digits: Seq<usize>, negative: bool) -> int {
    if negative {
        -(digits_value(digits) as int)
    } else {
        digits_value(digits) as int
    }
}

impl BigInt {
    /// The magnitude the digits denote.
    pub open spec fn magnitude(self) -> nat {
        digits_value(self.digits@)
    }

    /// The signed integer this value denotes.
    pub open spec fn int_value(self) -> int {
        signed_value(self.digits@, self.negative)
    }

    /// Canonical digits and no negative zero: the shape of `default`, of the one-digit
    /// conversions, and of sums of such values (see the laws).
    pub open spec fn is_normal(self) -> bool {
        is_canonical(self.digits@) && !(self.negative && self.magnitude() == 0)
    }

    /// The same digits with the sign cleared.
    pub fn abs(&self) -> (r: Self)
        ensures
            r.digits@ == self.digits@,
            !r.negative,
            r.int_value() == if self.int_value() < 0 { -self.int_value() } else { self.int_value() },
    {
        let abs_digits = self.digits.clone();
        proof {
            assert(abs_digits@ =~= self.digits@);
        }
        Self { digits: abs_digits, negative: false }
    }
}

impl Default for BigInt {
    /// Zero: the single digit `0`, not negative.
    fn default() -> (r: Self)
        ensures
            r.digits@ == seq![0usize],
            !r.negative,
    {
        BigInt { digits: vec![0], negative: false }
    }
}

/// The digits of `a + b`. With one sign the magnitudes add, and the result is the
/// shortest digit sequence of the sum (no digit at all when both inputs have none).
/// With opposite signs the magnitude that is not less by `digits_less` loses the other
/// by column subtraction (`difference_digits`).
pub open spec fn sum_digits(a: BigInt, b: BigInt) -> Seq<usize> {
    if a.negative == b.negative {
        if a.digits@.len() == 0 && b.digits@.len() == 0 {
            Seq::empty()
        } else {
            canonical_digits(a.magnitude() + b.magnitude())
        }
    } else if digits_less(a.digits@, b.digits@) {
        difference_digits(b.digits@, a.digits@)
    } else {
        difference_digits(a.digits@, b.digits@)
    }
}

/// The sign of `a + b`: the common sign; with opposite signs the sign of the operand
/// whose magnitude is taken from, except that a difference of `[0]` is not negative.
pub open spec fn sum_negative(a: BigInt, b: BigInt) -> bool {
    if a.negative == b.negative {
        a.negative
    } else if sum_digits(a, b) == seq![0usize] {
        false
    } else if digits_less(a.digits@, b.digits@) {
        b.negative
    } else {
        a.negative
    }
}

/// The operand that addition and subtraction of opposite signs take as the larger
/// magnitude (the one not less by `digits_less`) has the larger value too. Canonical
/// digits, and digit vectors of one length, always agree so.
pub open spec fn shape_order_agrees(a: Seq<usize>, b: Seq<usize>) -> bool {
    if digits_less(a, b) {
        digits_value(a) <= digits_value(b)
    } else {
        digits_value(b) <= digits_value(a)
    }
}

/// The operands for which addition gives the sum of their values: any of one sign; of
/// opposite signs, those where the operand taken as the larger magnitude has the larger
/// value and no column of the subtraction of magnitudes wraps a borrow.
pub open spec fn add_is_exact(a: BigInt, b: BigInt) -> bool {
    a.negative != b.negative ==> {
        &&& shape_order_agrees(a.digits@, b.digits@)
        &&& if digits_less(a.digits@, b.digits@) {
            no_wrapped_borrow(b.digits@, a.digits@)
        } else {
            no_wrapped_borrow(a.digits@, b.digits@)
        }
    }
}

/// The operand whose magnitude an addition or subtraction of opposite signs takes from:
/// the one that is not less by `digits_less`.
pub open spec fn minuend(a: BigInt, b: BigInt) -> BigInt {
    if digits_less(a.digits@, b.digits@) {
        b
    } else {
        a
    }
}

/// The operand whose magnitude an addition or subtraction of opposite signs takes away.
pub open spec fn subtrahend(a: BigInt, b: BigInt) -> BigInt {
    if digits_less(a.digits@, b.digits@) {
        a
    } else {
        b
    }
}

/// The weight of the borrows that the column subtraction of the magnitudes loses.
pub open spec fn lost_borrows(a: BigInt, b: BigInt) -> nat {
    wrapped_weight(minuend(a, b).digits@, subtrahend(a, b).digits@, minuend(a, b).digits@.len())
}

/// Both magnitudes are held in the digit positions that both operands have.
pub open spec fn fits_common_positions(a: BigInt, b: BigInt) -> bool {
    &&& value_below(a.digits@, common_len(a, b)) == a.magnitude()
    &&& value_below(b.digits@, common_len(a, b)) == b.magnitude()
}

/// Removes the most significant zero digits, keeping at least one digit.
pub(crate) fn strip_leading_zeros(digits: &mut Vec<usize>)
    ensures
        final(digits)@ == trim(old(digits)@),
{
    let ghost start = digits@;
    while digits.len() > 1 && digits[digits.len() - 1] == 0
        invariant
            trim(digits@) == trim(start),
        decreases digits@.len(),
    {
        digits.pop();
    }
}

/// Adds two magnitudes column by column, appending the last carry as a digit when it is set.
fn add_columns(a: &Vec<usize>, b: &Vec<usize>) -> (r: Vec<usize>)
    ensures
        digits_value(r@) == digits_value(a@) + digits_value(b@),
        r@.len() == 0 <==> a@.len() == 0 && b@.len() == 0,
{
    let len1 = a.len();
    let len2 = b.len();
    let max_len = len1.max(len2);
    let mut result: Vec<usize> = Vec::with_capacity(max_len);
    let mut carry: usize = 0;
    for i in 0..max_len
        invariant
            len1 == a@.len(),
            len2 == b@.len(),
            max_len == if len1 < len2 { len2 } else { len1 },
            result@.len() == i,
            carry <= 1,
            digits_value(result@) + carry * weight(i as nat) == value_below(a@, i as nat)
                + value_below(b@, i as nat),
    {
        let x = if i < len1 {
            a[i]
        } else {
            0
        };
        let y = if i < len2 {
            b[i]
        } else {
            0
        };
        let sum = x.wrapping_add(y).wrapping_add(carry);
        let ghost old_carry = carry;
        let ghost old_result = result@;
        carry = if sum < x || (carry > 0 && sum == x) {
            1
        } else {
            0
        };
        result.push(sum);
        proof {
            assert(digit_at(a@, i as int) == x);
            assert(digit_at(b@, i as int) == y);
            assert(sum + carry * radix() == x + y + old_carry);
            lemma_value_push(old_result, sum);
            lemma_carry_step(
                digits_value(old_result),
                old_carry as nat,
                value_below(a@, i as nat),
                value_below(b@, i as nat),
                x as nat,
                y as nat,
                sum as nat,
                carry as nat,
                weight(i as nat),
            );
        }
    }
    proof {
        lemma_value_below_past_end(a@, max_len as nat);
        lemma_value_below_past_end(b@, max_len as nat);
    }
    if carry > 0 {
        proof {
            lemma_value_push(result@, carry);
        }
        result.push(carry);
    }
    result
}

/// Subtracts magnitude `smaller` from magnitude `larger` column by column; returns the
/// digits and the borrow that leaves the last column.
fn subtract_columns(larger: &Vec<usize>, smaller: &Vec<usize>) -> (r: (Vec<usize>, usize))
    requires
        smaller@.len() <= larger@.len(),
    ensures
        r.0@ == column_difference(larger@, smaller@),
        r.1 == bit(borrow_into(larger@, smaller@, larger@.len() as nat)),
{
    let max_len = larger.len();
    let len2 = smaller.len();
    let mut result: Vec<usize> = Vec::with_capacity(max_len);
    let mut borrow: usize = 0;
    for i in 0..max_len
        invariant
            max_len == larger@.len(),
            len2 == smaller@.len(),
            result@.len() == i,
            forall|j: int| 0 <= j < i ==> result@[j] == column_digit(larger@, smaller@, j as nat),
            borrow == bit(borrow_into(larger@, smaller@, i as nat)),
    {
        let x = larger[i];
        let y = if i < len2 {
            smaller[i]
        } else {
            0
        };
        let subtrahend = y.wrapping_add(borrow);
        proof {
            assert(digit_at(smaller@, i as int) == y);
            lemma_mod_radix_once((y + borrow) as nat);
            assert(subtrahend == column_subtrahend(larger@, smaller@, i as nat));
        }
        let (difference, overflow) = sub_with_overflow(x, subtrahend);
        borrow = if overflow {
            1
        } else {
            0
        };
        result.push(difference);
    }
    proof {
        assert(result@ =~= column_difference(larger@, smaller@));
    }
    (result, borrow)
}

/// `x - y` modulo `radix()`, and whether `x < y`.
fn sub_with_overflow(x: usize, y: usize) -> (r: (usize, bool))
    ensures
        r.1 == (x < y),
        r.0 == if x >= y {
            (x - y) as nat
        } else {
            (x + radix() - y) as nat
        },
{
    (x.wrapping_sub(y), x < y)
}

/// Takes the borrow that left the last column from the most significant nonzero digit.
fn borrow_from_most_significant(digits: Vec<usize>) -> (r: Vec<usize>)
    ensures
        r@ == borrow_from_top(digits@),
{
    let ghost start = digits@;
    let mut digits = digits;
    let n = digits.len();
    let mut j = n;
    while j > 0
        invariant_except_break
            forall|k: int| j <= k < n ==> digits@[k] == usize::MAX,
            forall|k: int| j <= k < n ==> start[k] == 0,
            j == 0 ==> digits@ == borrow_from_top(start),
            n == start.len(),
            digits@.len() == n,
            j <= n,
            forall|k: int| 0 <= k < j ==> digits@[k] == start[k],
        ensures
            digits@ == borrow_from_top(start),
        decreases j,
    {
        j -= 1;
        let ghost before = digits@;
        if digits[j] == 0 {
            digits.set(j, usize::MAX);
            proof {
                if j == 0 {
                    assert(start[0] == 0);
                    lemma_borrow_from_top_zero_top(start, 0);
                    let empty = start.take(0);
                    assert(empty.len() == 0);
                    assert(borrow_from_top(empty) == empty);
                    let target = borrow_from_top(empty) + Seq::new(n as nat, |k: int| usize::MAX);
                    assert forall|k: int| 0 <= k < n implies digits@[k] == target[k] by {
                        if k > 0 {
                            assert(digits@[k] == before[k]);
                        }
                    }
                    assert(digits@ =~= target);
                }
            }
        } else {
            let d = digits[j];
            digits.set(j, d - 1);
            proof {
                lemma_borrow_from_top_zero_top(start, (j + 1) as nat);
                let low = start.take((j + 1) as int);
                assert(low.drop_last() =~= start.take(j as int));
                assert(low.last() == d);
                assert(borrow_from_top(low) == low.drop_last().push((d - 1) as usize));
                let target = borrow_from_top(low) + Seq::new(
                    (n - j - 1) as nat,
                    |k: int| usize::MAX,
                );
                assert(target.len() == n);
                assert forall|k: int| 0 <= k < n implies digits@[k] == target[k] by {
                    if k < j {
                        assert(target[k] == low[k]);
                    } else if k == j {
                        assert(target[k] == (d - 1) as usize);
                    } else {
                        assert(digits@[k] == before[k]);
                        assert(target[k] == usize::MAX);
                    }
                }
                assert(digits@ =~= target);
            }
            break;
        }
    }
    digits
}

impl core::ops::Add for BigInt {
    type Output = Self;

    fn add(self, rhs: Self) -> (r: Self)
        ensures
            r.digits@ == sum_digits(self, rhs),
            r.negative == sum_negative(self, rhs),
            add_is_exact(self, rhs) ==> r.int_value() == self.int_value() + rhs.int_value(),
            r.digits@.len() == 0 <==> self.digits@.len() == 0 && rhs.digits@.len() == 0,
            r.digits@.len() > 0 ==> is_canonical(r.digits@),
            r.negative && r.magnitude() == 0 ==> self.magnitude() == 0 && rhs.magnitude() == 0,
            self.negative == rhs.negative ==> r.negative == self.negative,
            self.negative != rhs.negative && r.magnitude() > 0 ==> r.negative == minuend(
                self,
                rhs,
            ).negative,
            self.negative != rhs.negative && subtrahend(self, rhs).magnitude() <= minuend(
                self,
                rhs,
            ).magnitude() + lost_borrows(self, rhs) ==> r.magnitude() + subtrahend(
                self,
                rhs,
            ).magnitude() == minuend(self, rhs).magnitude() + lost_borrows(self, rhs),
    {
        proof {
            if add_is_exact(self, rhs) {
                law_add_exact(self, rhs);
            }
            law_add_shape(self, rhs);
            if self.negative != rhs.negative {
                law_add_opposite_signs(self, rhs);
            }
        }
        if self.negative == rhs.negative {
            let mut result = add_columns(&self.digits, &rhs.digits);
            let ghost raw = result@;
            strip_leading_zeros(&mut result);
            proof {
                lemma_trim(raw);
                if raw.len() > 0 {
                    lemma_canonical_unique(result@);
                }
            }
            BigInt { digits: result, negative: self.negative }
        } else {
            proof {
                if self.digits@ == rhs.digits@ {
                    lemma_less_from_top_irreflexive(self.digits@, self.digits@.len());
                }
            }
            let (larger, smaller, negative) = if self.abs() >= rhs.abs() {
                (&self, &rhs, self.negative)
            } else {
                (&rhs, &self, rhs.negative)
            };
            let (mut result, borrow) = subtract_columns(&larger.digits, &smaller.digits);
            if borrow > 0 {
                result = borrow_from_most_significant(result);
            }
            strip_leading_zeros(&mut result);
            if result.len() == 1 && result[0] == 0 {
                proof {
                    assert(result@ =~= seq![0usize]);
                }
                BigInt::default()
            } else {
                proof {
                    assert(result@ != seq![0usize]);
                }
                BigInt { digits: result, negative: negative }
            }
        }
    }
}

impl AddSpecImpl for BigInt {
    /// The value of `a + b` is not claimed equal to `add_spec`: a `Vec` is not fixed by
    /// its contents in specifications. The contract of `add` states its digits and sign.
    open spec fn obeys_add_spec() -> bool {
        false
    }

    /// The addition panics when the signs differ and `rhs` has more digits than `self`.
    open spec fn add_req(self, rhs: Self) -> bool {
        self.negative != rhs.negative ==> rhs.digits@.len() <= self.digits@.len()
    }

    open spec fn add_spec(self, rhs: Self) -> Self {
        choose|r: BigInt| r.digits@ == sum_digits(self, rhs) && r.negative == sum_negative(self, rhs)
    }
}

/// The positions that both `a` and `b` have, subtracted column by column: the `m` digits
/// of the difference of the values of those positions modulo `weight(m)`.
pub open spec fn wrapped_difference(a: Seq<usize>, b: Seq<usize>) -> Seq<usize> {
    let m = if a.len() < b.len() {
        a.len()
    } else {
        b.len()
    };
    fixed_digits(((value_below(a, m) - value_below(b, m)) % (weight(m) as int)) as nat, m)
}

/// The digits of `a - b`: with one sign, `b`'s digits subtracted from `a`'s over the
/// positions both have; with opposite signs, the magnitude that is less by `digits_less`
/// subtracted from the other in the same way.
pub open spec fn difference_of(a: BigInt, b: BigInt) -> Seq<usize> {
    if a.negative == b.negative {
        wrapped_difference(a.digits@, b.digits@)
    } else if digits_less(a.digits@, b.digits@) {
        wrapped_difference(b.digits@, a.digits@)
    } else {
        wrapped_difference(a.digits@, b.digits@)
    }
}

/// The sign of `a - b`: `a`'s sign when the signs agree, not negative otherwise.
pub open spec fn difference_negative(a: BigInt, b: BigInt) -> bool {
    a.negative == b.negative && a.negative
}

/// Subtracts `b`'s digits from `a`'s over the positions both have, keeping `a`'s sign.
fn subtract_common_positions(a: &BigInt, b: &BigInt) -> (r: BigInt)
    ensures
        r.digits@ == wrapped_difference(a.digits@, b.digits@),
        r.negative == a.negative,
{
    let mut digits: Vec<usize> = Vec::new();
    let mut carry: usize = 0;
    let m = if a.digits.len() < b.digits.len() {
        a.digits.len()
    } else {
        b.digits.len()
    };
    for i in 0..m
        invariant
            m <= a.digits@.len(),
            m <= b.digits@.len(),
            m == a.digits@.len() || m == b.digits@.len(),
            digits@.len() == i,
            carry <= 1,
            digits_value(digits@) + value_below(b.digits@, i as nat) == value_below(a.digits@, i as nat)
                + carry * weight(i as nat),
    {
        let x = a.digits[i];
        let y = b.digits[i];
        let diff = x.wrapping_sub(y).wrapping_sub(carry);
        let ghost old_carry = carry;
        let ghost old_digits = digits@;
        carry = if diff > x || (carry > 0 && diff == x) {
            1
        } else {
            0
        };
        digits.push(diff);
        proof {
            assert(diff + y + old_carry == x + carry * radix());
            lemma_value_push(old_digits, diff);
            lemma_borrow_step(
                digits_value(old_digits),
                old_carry as nat,
                value_below(a.digits@, i as nat),
                value_below(b.digits@, i as nat),
                x as nat,
                y as nat,
                diff as nat,
                carry as nat,
                weight(i as nat),
            );
        }
    }
    proof {
        let va = value_below(a.digits@, m as nat);
        let vb = value_below(b.digits@, m as nat);
        let w = weight(m as nat);
        lemma_value_below_bound(digits@, m as nat);
        let q = -(carry as int);
        assert(q * (w as int) == -((carry as int) * (w as int))) by (nonlinear_arith)
            requires
                q == -(carry as int),
        ;
        lemma_fundamental_div_mod_converse(va - vb, w as int, q, digits_value(digits@) as int);
        lemma_fixed_unique(digits@);
    }
    BigInt { digits, negative: a.negative }
}

impl core::ops::Sub for BigInt {
    type Output = Self;

    fn sub(self, rhs: Self) -> (r: Self)
        ensures
            r.digits@ == difference_of(self, rhs),
            r.negative == difference_negative(self, rhs),
            r.digits@.len() == common_len(self, rhs),
            self.negative == rhs.negative ==> r.negative == self.negative,
            self.negative != rhs.negative ==> !r.negative,
            self.negative != rhs.negative ==> digits_value(r.digits@) == (value_below(
                minuend(self, rhs).digits@,
                common_len(self, rhs),
            ) - value_below(subtrahend(self, rhs).digits@, common_len(self, rhs))) % (weight(
                common_len(self, rhs),
            ) as int),
            self.negative == rhs.negative ==> digits_value(r.digits@) == (value_below(
                self.digits@,
                common_len(self, rhs),
            ) - value_below(rhs.digits@, common_len(self, rhs))) % (weight(
                common_len(self, rhs),
            ) as int),
            self.negative == rhs.negative && fits_common_positions(self, rhs)
                && rhs.magnitude() <= self.magnitude() ==> r.int_value() == self.int_value()
                - rhs.int_value(),
            self.negative != rhs.negative && fits_common_positions(self, rhs)
                && shape_order_agrees(self.digits@, rhs.digits@) ==> r.int_value() == if self.magnitude()
                >= rhs.magnitude() {
                self.magnitude() - rhs.magnitude()
            } else {
                rhs.magnitude() - self.magnitude()
            },
    {
        proof {
            law_sub_shape(self, rhs);
            if self.negative == rhs.negative && fits_common_positions(self, rhs)
                && rhs.magnitude() <= self.magnitude() {
                crate::laws::law_sub_same_sign(self, rhs);
            }
            if self.negative != rhs.negative && fits_common_positions(self, rhs)
                && shape_order_agrees(self.digits@, rhs.digits@) {
                law_sub_opposite_signs(self, rhs);
            }
        }
        if self.negative == rhs.negative {
            subtract_common_positions(&self, &rhs)
        } else {
            proof {
                lemma_less_from_top_value(rhs.digits@, self.digits@, rhs.digits@.len());
                if self.digits@ == rhs.digits@ {
                    lemma_less_from_top_irreflexive(self.digits@, self.digits@.len());
                } else if self.digits@.len() == rhs.digits@.len() {
                    if !digits_less(rhs.digits@, self.digits@) && !digits_less(
                        self.digits@,
                        rhs.digits@,
                    ) {
                        assert forall|j: int| 0 <= j < self.digits@.len() implies self.digits@[j]
                            == rhs.digits@[j] by {
                            assert(digit_at(self.digits@, j) == digit_at(rhs.digits@, j));
                        }
                        assert(self.digits@ =~= rhs.digits@);
                    }
                }
            }
            let result = if rhs.abs() > self.abs() {
                subtract_common_positions(&rhs.abs(), &self.abs())
            } else {
                subtract_common_positions(&self.abs(), &rhs.abs())
            };
            result
        }
    }
}

impl SubSpecImpl for BigInt {
    /// The value of `a - b` is not claimed equal to `sub_spec`: a `Vec` is not fixed by
    /// its contents in specifications. The contract of `sub` states its digits and sign.
    open spec fn obeys_sub_spec() -> bool {
        false
    }

    open spec fn sub_req(self, rhs: Self) -> bool {
        true
    }

    open spec fn sub_spec(self, rhs: Self) -> Self {
        choose|r: BigInt|
            r.digits@ == difference_of(self, rhs) && r.negative == difference_negative(self, rhs)
    }
}

} // verus!
