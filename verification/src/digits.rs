//! The mathematical model of a digit vector: digits are little-endian,
//! each one a machine word, so digit `i` weighs `radix()` to the power `i`.
use vstd::arithmetic::div_mod::{
    lemma_div_decreases, lemma_fundamental_div_mod, lemma_fundamental_div_mod_converse,
    lemma_mod_breakdown,
};
use vstd::prelude::*;

verus! {

/// How many values one digit can take: `usize::MAX + 1`.
pub open spec fn radix() -> nat {
    usize::MAX as nat + 1
}

/// The weight of the digit at position `n`: `radix()` to the power `n`.
pub open spec fn weight(n: nat) -> nat
    decreases n,
{
    if n == 0 {
        1
    } else {
        radix() * weight((n - 1) as nat)
    }
}

/// The digit at position `i`; positions past the end read as zero.
pub open spec fn digit_at(s: Seq<usize>, i: int) -> nat {
    if 0 <= i < s.len() {
        s[i] as nat
    } else {
        0
    }
}

/// The value of the `n` least significant digit positions of `s`.
pub open spec fn value_below(s: Seq<usize>, n: nat) -> nat
    decreases n,
{
    if n == 0 {
        0
    } else {
        value_below(s, (n - 1) as nat) + digit_at(s, n - 1) * weight((n - 1) as nat)
    }
}

/// The natural number that the digit sequence `s` denotes.
pub open spec fn digits_value(s: Seq<usize>) -> nat {
    value_below(s, s.len())
}

pub proof fn lemma_weight_positive(n: nat)
    ensures
        weight(n) >= 1,
    decreases n,
{
    if n > 0 {
        lemma_weight_positive((n - 1) as nat);
        let w = weight((n - 1) as nat);
        assert(radix() * w >= w) by (nonlinear_arith)
            requires
                radix() >= 1,
                w >= 1,
        ;
    }
}

pub proof fn lemma_weight_step(n: nat)
    ensures
        weight(n + 1) == radix() * weight(n),
{
}

pub proof fn lemma_weight_monotone(m: nat, n: nat)
    requires
        m <= n,
    ensures
        weight(m) <= weight(n),
    decreases n - m,
{
    if m < n {
        lemma_weight_monotone(m, (n - 1) as nat);
        lemma_weight_positive((n - 1) as nat);
        let w = weight((n - 1) as nat);
        assert(radix() * w >= w) by (nonlinear_arith)
            requires
                radix() >= 1,
                w >= 1,
        ;
    }
}

/// Every value of `n` digit positions is below `weight(n)`.
pub proof fn lemma_value_below_bound(s: Seq<usize>, n: nat)
    ensures
        value_below(s, n) < weight(n),
    decreases n,
{
    if n > 0 {
        let m = (n - 1) as nat;
        lemma_value_below_bound(s, m);
        let v = value_below(s, m);
        let d = digit_at(s, m as int);
        let w = weight(m);
        assert(d <= radix() - 1);
        assert(v + d * w < radix() * w) by (nonlinear_arith)
            requires
                v < w,
                d <= radix() - 1,
        ;
    }
}

/// Two sequences that agree on the positions below `n` have the same value below `n`.
pub proof fn lemma_value_below_agree(s: Seq<usize>, t: Seq<usize>, n: nat)
    requires
        forall|j: int| 0 <= j < n ==> digit_at(s, j) == digit_at(t, j),
    ensures
        value_below(s, n) == value_below(t, n),
    decreases n,
{
    if n > 0 {
        lemma_value_below_agree(s, t, (n - 1) as nat);
        assert(digit_at(s, n - 1) == digit_at(t, n - 1));
    }
}

/// Positions past the end add nothing.
pub proof fn lemma_value_below_past_end(s: Seq<usize>, n: nat)
    requires
        n >= s.len(),
    ensures
        value_below(s, n) == digits_value(s),
    decreases n - s.len(),
{
    if n > s.len() {
        lemma_value_below_past_end(s, (n - 1) as nat);
        assert(digit_at(s, n - 1) == 0);
    }
}

pub proof fn lemma_value_push(s: Seq<usize>, d: usize)
    ensures
        digits_value(s.push(d)) == digits_value(s) + d * weight(s.len()),
{
    let t = s.push(d);
    assert(digit_at(t, s.len() as int) == d);
    lemma_value_below_agree(s, t, s.len());
}

pub proof fn lemma_value_drop_last(s: Seq<usize>)
    requires
        s.len() >= 1,
    ensures
        digits_value(s) == digits_value(s.drop_last()) + s.last() * weight((s.len() - 1) as nat),
{
    assert(s.drop_last().push(s.last()) =~= s);
    lemma_value_push(s.drop_last(), s.last());
}

/// The least significant digit, then the rest shifted down by one position.
pub proof fn lemma_value_first_digit(s: Seq<usize>)
    requires
        s.len() >= 1,
    ensures
        digits_value(s) == s[0] + radix() * digits_value(s.subrange(1, s.len() as int)),
    decreases s.len(),
{
    let n = s.len();
    let tail = s.subrange(1, n as int);
    if n == 1 {
        assert(tail.len() == 0);
        assert(digits_value(s) == s[0]) by {
            assert(weight(0) == 1);
            assert(value_below(s, 1) == value_below(s, 0) + digit_at(s, 0) * weight(0));
        }
    } else {
        let front = s.drop_last();
        lemma_value_first_digit(front);
        lemma_value_drop_last(s);
        lemma_value_drop_last(tail);
        assert(tail.drop_last() =~= front.subrange(1, front.len() as int));
        assert(tail.last() == s.last());
        let a = digits_value(front.subrange(1, front.len() as int));
        let l = s.last() as nat;
        let w = weight((n - 2) as nat);
        lemma_weight_step((n - 2) as nat);
        assert(radix() * (a + l * w) == radix() * a + l * (radix() * w)) by (nonlinear_arith);
    }
}

/// The digit sequences whose most significant digit is not zero, and `[0]`.
pub open spec fn is_canonical(s: Seq<usize>) -> bool {
    s.len() >= 1 && (s.len() == 1 || s.last() != 0)
}

/// `s` with its most significant zero digits removed, keeping at least one digit.
pub open spec fn trim(s: Seq<usize>) -> Seq<usize>
    decreases s.len(),
{
    if s.len() > 1 && s.last() == 0 {
        trim(s.drop_last())
    } else {
        s
    }
}

/// The shortest digit sequence of `v`: `[0]` for zero.
pub open spec fn canonical_digits(v: nat) -> Seq<usize>
    decreases v,
{
    if v < radix() {
        seq![v as usize]
    } else {
        proof {
            lemma_div_decreases(v as int, radix() as int);
        }
        seq![(v % radix()) as usize] + canonical_digits(v / radix())
    }
}

/// The `m` least significant digits of `v`.
pub open spec fn fixed_digits(v: nat, m: nat) -> Seq<usize>
    decreases m,
{
    if m == 0 {
        Seq::empty()
    } else {
        seq![(v % radix()) as usize] + fixed_digits(v / radix(), (m - 1) as nat)
    }
}

/// The digits of `v` in base `base`, least significant first, with no digit for zero.
pub open spec fn base_digits(v: nat, base: nat) -> Seq<usize>
    recommends
        base >= 2,
    decreases v,
    when base >= 2
{
    if v == 0 {
        Seq::empty()
    } else {
        proof {
            lemma_div_decreases(v as int, base as int);
        }
        seq![(v % base) as usize] + base_digits(v / base, base)
    }
}

pub proof fn lemma_trim(s: Seq<usize>)
    ensures
        digits_value(trim(s)) == digits_value(s),
        trim(s).len() <= s.len(),
        s.len() >= 1 ==> is_canonical(trim(s)),
        s.len() == 0 ==> trim(s) == s,
        is_canonical(s) ==> trim(s) == s,
        trim(s).len() >= 1 ==> trim(s) == s.take(trim(s).len() as int),
    decreases s.len(),
{
    if s.len() > 1 && s.last() == 0 {
        lemma_trim(s.drop_last());
        lemma_value_drop_last(s);
        let t = trim(s.drop_last());
        assert(s.drop_last().take(t.len() as int) =~= s.take(t.len() as int));
    } else {
        assert(s.take(s.len() as int) =~= s);
    }
}

/// A canonical sequence of two or more digits is at least the weight of its top position.
pub proof fn lemma_canonical_lower_bound(s: Seq<usize>)
    requires
        is_canonical(s),
        s.len() >= 2,
    ensures
        digits_value(s) >= weight((s.len() - 1) as nat),
{
    lemma_value_drop_last(s);
    let w = weight((s.len() - 1) as nat);
    let l = s.last() as nat;
    assert(l * w >= w) by (nonlinear_arith)
        requires
            l >= 1,
    ;
}

proof fn lemma_split_by_radix(s: Seq<usize>)
    requires
        s.len() >= 1,
    ensures
        digits_value(s) % radix() == s[0],
        digits_value(s) / radix() == digits_value(s.subrange(1, s.len() as int)),
{
    lemma_value_first_digit(s);
    let q = digits_value(s.subrange(1, s.len() as int));
    assert(digits_value(s) == q * radix() + s[0]) by (nonlinear_arith)
        requires
            digits_value(s) == s[0] + radix() * q,
    ;
    lemma_fundamental_div_mod_converse(digits_value(s) as int, radix() as int, q as int, s[0] as int);
}

/// A canonical sequence is the shortest digit sequence of its value.
pub proof fn lemma_canonical_unique(s: Seq<usize>)
    requires
        is_canonical(s),
    ensures
        s == canonical_digits(digits_value(s)),
    decreases s.len(),
{
    let v = digits_value(s);
    if s.len() == 1 {
        lemma_value_first_digit(s);
        let tail = s.subrange(1, s.len() as int);
        assert(tail.len() == 0);
        assert(digits_value(tail) == 0);
        assert(radix() * digits_value(tail) == 0);
        assert(v == s[0]);
        assert(canonical_digits(v) =~= s);
    } else {
        lemma_canonical_lower_bound(s);
        lemma_weight_monotone(1, (s.len() - 1) as nat);
        assert(weight(0) == 1);
        assert(weight(1) == radix() * weight(0));
        lemma_split_by_radix(s);
        let tail = s.subrange(1, s.len() as int);
        assert(tail.last() == s.last());
        lemma_canonical_unique(tail);
        assert(canonical_digits(v) =~= seq![s[0]] + tail);
        assert(seq![s[0]] + tail =~= s);
    }
}

/// Any sequence is the fixed-length digit sequence of its value.
pub proof fn lemma_fixed_unique(s: Seq<usize>)
    ensures
        s == fixed_digits(digits_value(s), s.len()),
    decreases s.len(),
{
    if s.len() == 0 {
        assert(fixed_digits(0, 0) =~= s);
    } else {
        lemma_split_by_radix(s);
        let tail = s.subrange(1, s.len() as int);
        lemma_fixed_unique(tail);
        assert(seq![s[0]] + tail =~= s);
    }
}

/// Reading from position `n - 1` down, the first position where `a` and `b` differ
/// holds the smaller digit in `a`.
pub open spec fn less_from_top(a: Seq<usize>, b: Seq<usize>, n: nat) -> bool
    decreases n,
{
    if n == 0 {
        false
    } else if digit_at(a, n - 1) != digit_at(b, n - 1) {
        digit_at(a, n - 1) < digit_at(b, n - 1)
    } else {
        less_from_top(a, b, (n - 1) as nat)
    }
}

/// The order of digit sequences by shape: the shorter is less, and sequences of one
/// length are compared from the most significant digit down.
pub open spec fn digits_less(a: Seq<usize>, b: Seq<usize>) -> bool {
    if a.len() != b.len() {
        a.len() < b.len()
    } else {
        less_from_top(a, b, a.len())
    }
}

pub proof fn lemma_less_from_top_value(a: Seq<usize>, b: Seq<usize>, n: nat)
    ensures
        less_from_top(a, b, n) ==> value_below(a, n) < value_below(b, n),
        !less_from_top(a, b, n) && !less_from_top(b, a, n) ==> (forall|j: int|
            0 <= j < n ==> digit_at(a, j) == digit_at(b, j)),
        !(less_from_top(a, b, n) && less_from_top(b, a, n)),
    decreases n,
{
    if n > 0 {
        let m = (n - 1) as nat;
        lemma_less_from_top_value(a, b, m);
        let da = digit_at(a, m as int);
        let db = digit_at(b, m as int);
        let w = weight(m);
        if da != db {
            lemma_value_below_bound(a, m);
            let va = value_below(a, m);
            let vb = value_below(b, m);
            if da < db {
                assert(va + da * w < vb + db * w) by (nonlinear_arith)
                    requires
                        va < w,
                        da < db,
                ;
            }
        }
    }
}

/// On canonical sequences the shape order is the order of the values.
pub proof fn lemma_digits_less_value(a: Seq<usize>, b: Seq<usize>)
    requires
        is_canonical(a),
        is_canonical(b),
    ensures
        digits_less(a, b) <==> digits_value(a) < digits_value(b),
        a == b <==> digits_value(a) == digits_value(b),
{
    if a.len() < b.len() {
        lemma_value_below_bound(a, a.len());
        lemma_canonical_lower_bound(b);
        lemma_weight_monotone(a.len(), (b.len() - 1) as nat);
    } else if b.len() < a.len() {
        lemma_value_below_bound(b, b.len());
        lemma_canonical_lower_bound(a);
        lemma_weight_monotone(b.len(), (a.len() - 1) as nat);
    } else {
        lemma_less_from_top_value(a, b, a.len());
        lemma_less_from_top_value(b, a, a.len());
        if !less_from_top(a, b, a.len()) && !less_from_top(b, a, a.len()) {
            assert forall|j: int| 0 <= j < a.len() implies a[j] == b[j] by {
                assert(digit_at(a, j) == digit_at(b, j));
            }
            assert(a =~= b);
        }
    }
}

pub proof fn lemma_less_from_top_irreflexive(a: Seq<usize>, n: nat)
    ensures
        !less_from_top(a, a, n),
    decreases n,
{
    if n > 0 {
        lemma_less_from_top_irreflexive(a, (n - 1) as nat);
    }
}

/// When `a` and `b` agree on positions `i + 1` to `n - 1` and differ at `i`, the digit
/// at `i` decides `less_from_top`.
pub proof fn lemma_less_from_top_decided_at(a: Seq<usize>, b: Seq<usize>, n: usize, i: usize)
    requires
        i < n,
        digit_at(a, i as int) != digit_at(b, i as int),
        forall|j: int| i < j < n ==> digit_at(a, j) == digit_at(b, j),
    ensures
        less_from_top(a, b, n as nat) == (digit_at(a, i as int) < digit_at(b, i as int)),
    decreases n,
{
    if n - 1 > i {
        lemma_less_from_top_decided_at(a, b, (n - 1) as usize, i);
    }
}

/// The shortest digit sequence of `v` denotes `v` and is canonical.
pub proof fn lemma_canonical_digits_value(v: nat)
    ensures
        digits_value(canonical_digits(v)) == v,
        is_canonical(canonical_digits(v)),
        v > 0 ==> canonical_digits(v).last() != 0,
    decreases v,
{
    let s = canonical_digits(v);
    if v < radix() {
        lemma_value_first_digit(s);
        let tail = s.subrange(1, s.len() as int);
        assert(tail.len() == 0);
        assert(digits_value(tail) == 0);
        assert(radix() * digits_value(tail) == 0);
    } else {
        lemma_div_decreases(v as int, radix() as int);
        let q = v / radix();
        let r = v % radix();
        lemma_canonical_digits_value(q);
        let tail = canonical_digits(q);
        assert(s == seq![r as usize] + tail);
        lemma_value_first_digit(s);
        assert(s.subrange(1, s.len() as int) =~= tail);
        lemma_fundamental_div_mod(v as int, radix() as int);
        assert(q > 0) by {
            if q == 0 {
                assert(radix() * q == 0);
            }
        }
        assert(s.last() == tail.last());
    }
}

/// The `m` least significant digits of `v` denote `v` modulo `weight(m)`.
pub proof fn lemma_fixed_digits_value(v: nat, m: nat)
    ensures
        fixed_digits(v, m).len() == m,
        digits_value(fixed_digits(v, m)) == v % weight(m),
    decreases m,
{
    let s = fixed_digits(v, m);
    if m == 0 {
        assert(weight(0) == 1);
        assert(s.len() == 0);
        assert(digits_value(s) == 0);
    } else {
        let k = (m - 1) as nat;
        lemma_fixed_digits_value(v / radix(), k);
        let tail = fixed_digits(v / radix(), k);
        lemma_value_first_digit(s);
        assert(s.subrange(1, s.len() as int) =~= tail);
        lemma_weight_positive(k);
        lemma_mod_breakdown(v as int, radix() as int, weight(k) as int);
        assert(weight(m) == radix() * weight(k));
    }
}

/// The value of the digits `s` read in base `b`, least significant first.
pub open spec fn base_value(s: Seq<usize>, b: nat) -> nat
    decreases s.len(),
{
    if s.len() == 0 {
        0
    } else {
        s[0] as nat + b * base_value(s.subrange(1, s.len() as int), b)
    }
}

/// The digits of `v` in base `b` denote `v` in that base, are all below `b`, and have no
/// zero at the top.
pub proof fn lemma_base_digits(v: nat, b: nat)
    requires
        2 <= b <= radix(),
    ensures
        base_value(base_digits(v, b), b) == v,
        forall|i: int| 0 <= i < base_digits(v, b).len() ==> base_digits(v, b)[i] < b,
        base_digits(v, b).len() > 0 ==> base_digits(v, b).last() != 0,
    decreases v,
{
    if v > 0 {
        lemma_div_decreases(v as int, b as int);
        let q = v / b;
        let r = v % b;
        lemma_base_digits(q, b);
        let tail = base_digits(q, b);
        let s = base_digits(v, b);
        assert(s == seq![r as usize] + tail);
        assert(s.subrange(1, s.len() as int) =~= tail);
        lemma_fundamental_div_mod(v as int, b as int);
        assert(s[0] == r);
        if tail.len() == 0 {
            assert(q == 0) by {
                if q > 0 {
                    assert(base_digits(q, b).len() > 0);
                }
            }
            assert(r == v);
        } else {
            assert(s.last() == tail.last());
        }
        assert forall|i: int| 0 <= i < s.len() implies s[i] < b by {
            if i > 0 {
                assert(s[i] == tail[i - 1]);
            }
        }
    }
}

} // verus!
