//! Equality and ordering of big integers.
use crate::big_int::BigInt;
use crate::digits::{
    digit_at, digits_less, less_from_top,
    lemma_less_from_top_decided_at, lemma_less_from_top_value, lemma_digits_less_value,
};
use core::cmp::Ordering;
use vstd::prelude::*;
use vstd::std_specs::cmp::{PartialEqSpec, PartialEqSpecImpl, PartialOrdSpec, PartialOrdSpecImpl};

verus! {

impl PartialEq for BigInt {
    fn eq(&self, other: &Self) -> (r: bool) {
        let same_digits = self.digits == other.digits;
        proof {
            if same_digits {
                assert(self.digits@ =~= other.digits@);
            }
        }
        self.negative == other.negative && same_digits
    }
}

impl PartialEqSpecImpl for BigInt {
    /// Two big integers are equal when their signs and their digit sequences are.
    open spec fn obeys_eq_spec() -> bool {
        true
    }

    open spec fn eq_spec(&self, other: &Self) -> bool {
        self.negative == other.negative && self.digits@ == other.digits@
    }
}

/// `o` with `Less` and `Greater` exchanged.
pub open spec fn reversed(o: Ordering) -> Ordering {
    match o {
        Ordering::Less => Ordering::Greater,
        Ordering::Equal => Ordering::Equal,
        Ordering::Greater => Ordering::Less,
    }
}

fn reverse_ordering(o: Ordering) -> (r: Ordering)
    ensures
        r == reversed(o),
{
    match o {
        Ordering::Less => Ordering::Greater,
        Ordering::Equal => Ordering::Equal,
        Ordering::Greater => Ordering::Less,
    }
}

impl PartialOrd for BigInt {
    fn partial_cmp(&self, other: &Self) -> (r: Option<Ordering>) {
        if self.negative != other.negative {
            return Some(
                if self.negative {
                    Ordering::Less
                } else {
                    Ordering::Greater
                },
            );
        }
        let ordering = if self.digits.len() != other.digits.len() {
            self.digits.len().cmp(&other.digits.len())
        } else {
            let n = self.digits.len();
            let mut i = n;
            while i > 0
                invariant
                    i <= n,
                    n == self.digits@.len(),
                    n == other.digits@.len(),
                    self.negative == other.negative,
                    forall|j: int| i <= j < n ==> self.digits@[j] == other.digits@[j],
                decreases i,
            {
                i -= 1;
                let a = self.digits[i];
                let b = other.digits[i];
                if a != b {
                    proof {
                        lemma_less_from_top_decided_at(self.digits@, other.digits@, n, i);
                    }
                    return Some(a.cmp(&b));
                }
            }
            proof {
                assert(self.digits@ =~= other.digits@);
            }
            Ordering::Equal
        };
        if self.negative {
            Some(reverse_ordering(ordering))
        } else {
            Some(ordering)
        }
    }
}

impl PartialOrdSpecImpl for BigInt {
    open spec fn obeys_partial_cmp_spec() -> bool {
        true
    }

    /// Opposite signs: the negative one is less. Digit sequences of different lengths:
    /// the shorter magnitude is less, and the order is reversed for two negatives.
    /// Sequences of one length: the most significant differing digit decides, whatever
    /// the sign of the two.
    open spec fn partial_cmp_spec(&self, other: &Self) -> Option<Ordering> {
        if self.negative != other.negative {
            Some(
                if self.negative {
                    Ordering::Less
                } else {
                    Ordering::Greater
                },
            )
        } else if self.digits@.len() != other.digits@.len() {
            let by_length = if digits_less(self.digits@, other.digits@) {
                Ordering::Less
            } else {
                Ordering::Greater
            };
            Some(
                if self.negative {
                    reversed(by_length)
                } else {
                    by_length
                },
            )
        } else if self.digits@ == other.digits@ {
            Some(Ordering::Equal)
        } else if less_from_top(self.digits@, other.digits@, self.digits@.len()) {
            Some(Ordering::Less)
        } else {
            Some(Ordering::Greater)
        }
    }
}

/// Digit sequences of one length that neither precedes from the top are equal.
proof fn lemma_same_length_trichotomy(a: Seq<usize>, b: Seq<usize>)
    requires
        a.len() == b.len(),
    ensures
        !(less_from_top(a, b, a.len()) && less_from_top(b, a, a.len())),
        !less_from_top(a, b, a.len()) && !less_from_top(b, a, a.len()) ==> a == b,
{
    lemma_less_from_top_value(a, b, a.len());
    if !less_from_top(a, b, a.len()) && !less_from_top(b, a, a.len()) {
        assert forall|j: int| 0 <= j < a.len() implies a[j] == b[j] by {
            assert(digit_at(a, j) == digit_at(b, j));
        }
        assert(a =~= b);
    }
}

/// Comparing `b` with `a` gives the reverse of comparing `a` with `b`.
pub proof fn law_partial_cmp_antisymmetric(a: BigInt, b: BigInt)
    ensures
        PartialOrdSpec::partial_cmp_spec(&a, &b) == Some(reversed(PartialOrdSpec::partial_cmp_spec(&b, &a).unwrap())),
{
    if a.digits@.len() == b.digits@.len() {
        lemma_same_length_trichotomy(a.digits@, b.digits@);
    }
}

/// A comparison gives `Equal` exactly when `==` holds.
pub proof fn law_partial_cmp_equal(a: BigInt, b: BigInt)
    ensures
        PartialOrdSpec::partial_cmp_spec(&a, &b) == Some(Ordering::Equal) <==> PartialEqSpec::eq_spec(&a, &b),
{
    if a.digits@.len() != b.digits@.len() {
        assert(a.digits@ != b.digits@);
    }
}

/// On normal big integers the comparison orders by value, except for two negative
/// values with different digits of one length, which it orders by magnitude.
pub proof fn law_partial_cmp_value(a: BigInt, b: BigInt)
    requires
        a.is_normal(),
        b.is_normal(),
        !(a.negative && b.negative && a.digits@.len() == b.digits@.len() && a.digits@
            != b.digits@),
    ensures
        PartialOrdSpec::partial_cmp_spec(&a, &b) == Some(Ordering::Less) <==> a.int_value() < b.int_value(),
        PartialOrdSpec::partial_cmp_spec(&a, &b) == Some(Ordering::Equal) <==> a.int_value() == b.int_value(),
        PartialOrdSpec::partial_cmp_spec(&a, &b) == Some(Ordering::Greater) <==> a.int_value() > b.int_value(),
{
    lemma_digits_less_value(a.digits@, b.digits@);
    lemma_digits_less_value(b.digits@, a.digits@);
    if a.digits@.len() == b.digits@.len() {
        lemma_same_length_trichotomy(a.digits@, b.digits@);
    }
}

/// `==` holds only of big integers with one value; on normal big integers it holds
/// exactly of those with one value. It is reflexive.
pub proof fn law_eq_value(a: BigInt, b: BigInt)
    ensures
        PartialEqSpec::eq_spec(&a, &b) ==> a.int_value() == b.int_value(),
        a.is_normal() && b.is_normal() ==> (PartialEqSpec::eq_spec(&a, &b) <==> a.int_value()
            == b.int_value()),
        PartialEqSpec::eq_spec(&a, &a),
{
    if a.is_normal() && b.is_normal() {
        lemma_digits_less_value(a.digits@, b.digits@);
    }
}

/// Two negative big integers whose digit vectors have one length are ordered by
/// magnitude, not by value: the one of smaller magnitude compares as less.
pub proof fn law_partial_cmp_negative_same_length(a: BigInt, b: BigInt)
    requires
        a.negative,
        b.negative,
        a.digits@.len() == b.digits@.len(),
    ensures
        PartialOrdSpec::partial_cmp_spec(&a, &b) == Some(Ordering::Less) <==> a.magnitude()
            < b.magnitude(),
        PartialOrdSpec::partial_cmp_spec(&a, &b) == Some(Ordering::Equal) <==> a.magnitude()
            == b.magnitude(),
        PartialOrdSpec::partial_cmp_spec(&a, &b) == Some(Ordering::Greater) <==> a.magnitude()
            > b.magnitude(),
{
    lemma_same_length_trichotomy(a.digits@, b.digits@);
    lemma_less_from_top_value(a.digits@, b.digits@, a.digits@.len());
    lemma_less_from_top_value(b.digits@, a.digits@, a.digits@.len());
}

/// On digits of any shape the comparison follows the signs, then the shape order of the
/// magnitudes (reversed for two negatives of different lengths).
pub proof fn law_partial_cmp_shape(a: BigInt, b: BigInt)
    ensures
        a.negative != b.negative ==> (PartialOrdSpec::partial_cmp_spec(&a, &b) == Some(
            Ordering::Less,
        ) <==> a.negative),
        a.negative == b.negative && !a.negative ==> (PartialOrdSpec::partial_cmp_spec(&a, &b)
            == Some(Ordering::Less) <==> digits_less(a.digits@, b.digits@)),
        a.negative == b.negative && !a.negative ==> (PartialOrdSpec::partial_cmp_spec(&a, &b)
            == Some(Ordering::Greater) <==> digits_less(b.digits@, a.digits@)),
        a.negative && b.negative && a.digits@.len() != b.digits@.len() ==> (
        PartialOrdSpec::partial_cmp_spec(&a, &b) == Some(Ordering::Less) <==> digits_less(
            b.digits@,
            a.digits@,
        )),
        PartialOrdSpec::partial_cmp_spec(&a, &b) is Some,
{
    if a.digits@.len() == b.digits@.len() {
        lemma_same_length_trichotomy(a.digits@, b.digits@);
        if a.digits@ == b.digits@ {
            crate::digits::lemma_less_from_top_irreflexive(a.digits@, a.digits@.len());
        }
    }
}

} // verus!
