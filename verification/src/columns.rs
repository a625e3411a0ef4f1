//! Column arithmetic on digit sequences: the models of the digit loops of
//! addition and subtraction, and what they compute.
use crate::digits::{
    digit_at, digits_value, lemma_value_below_bound, radix, trim, value_below, weight,
};
use vstd::arithmetic::div_mod::{lemma_fundamental_div_mod_converse, lemma_small_mod};
use vstd::prelude::*;

verus! {

/// `1` for a borrow or carry that is set, `0` otherwise.
pub open spec fn bit(b: bool) -> nat {
    if b {
        1
    } else {
        0
    }
}

/// Whether column `i` of the column subtraction of `b` from `a` receives a borrow.
/// Each column subtracts from the minuend's digit the subtrahend's digit plus the
/// incoming borrow, that sum taken modulo `radix()` as one machine word holds it, and
/// passes a borrow on when the minuend's digit is the smaller.
pub open spec fn borrow_into(a: Seq<usize>, b: Seq<usize>, i: nat) -> bool
    decreases i,
{
    if i == 0 {
        false
    } else {
        let j = (i - 1) as nat;
        digit_at(a, j as int) < (digit_at(b, j as int) + bit(borrow_into(a, b, j))) % radix()
    }
}

/// What column `i` takes from the minuend's digit.
pub open spec fn column_subtrahend(a: Seq<usize>, b: Seq<usize>, i: nat) -> nat {
    (digit_at(b, i as int) + bit(borrow_into(a, b, i))) % radix()
}

/// The digit that column `i` leaves: the minuend's digit minus `column_subtrahend`,
/// modulo `radix()`.
pub open spec fn column_digit(a: Seq<usize>, b: Seq<usize>, i: nat) -> nat {
    let m = digit_at(a, i as int);
    let t = column_subtrahend(a, b, i);
    if m >= t {
        (m - t) as nat
    } else {
        (m + radix() - t) as nat
    }
}

/// The digits that the column subtraction of `b` from `a` leaves, one per digit of `a`.
pub open spec fn column_difference(a: Seq<usize>, b: Seq<usize>) -> Seq<usize> {
    Seq::new(a.len(), |i: int| column_digit(a, b, i as nat) as usize)
}

/// Takes one from the most significant nonzero digit of `s` and sets every digit
/// above it to `usize::MAX`; with no nonzero digit, every digit becomes `usize::MAX`.
pub open spec fn borrow_from_top(s: Seq<usize>) -> Seq<usize>
    decreases s.len(),
{
    if s.len() == 0 {
        s
    } else if s.last() == 0 {
        borrow_from_top(s.drop_last()).push(usize::MAX)
    } else {
        s.drop_last().push((s.last() - 1) as usize)
    }
}

/// What the subtraction of magnitude `b` from magnitude `a` leaves: the column
/// difference, taken once more from the top when a borrow leaves the last column,
/// with its most significant zero digits removed.
pub open spec fn difference_digits(a: Seq<usize>, b: Seq<usize>) -> Seq<usize> {
    let d = column_difference(a, b);
    trim(
        if borrow_into(a, b, a.len()) {
            borrow_from_top(d)
        } else {
            d
        },
    )
}

/// A sum of at most two digits, reduced once.
pub proof fn lemma_mod_radix_once(x: nat)
    requires
        x < 2 * radix(),
    ensures
        x % radix() == if x >= radix() {
            (x - radix()) as nat
        } else {
            x
        },
{
    if x >= radix() {
        lemma_fundamental_div_mod_converse(x as int, radix() as int, 1, x - radix());
    } else {
        lemma_fundamental_div_mod_converse(x as int, radix() as int, 0, x as int);
    }
}

/// `borrow_from_top` keeps the number of digits.
pub proof fn lemma_borrow_from_top_len(s: Seq<usize>)
    ensures
        borrow_from_top(s).len() == s.len(),
    decreases s.len(),
{
    if s.len() > 0 && s.last() == 0 {
        lemma_borrow_from_top_len(s.drop_last());
    }
}

/// `borrow_from_top` passes over zero digits at the top.
pub proof fn lemma_borrow_from_top_zero_top(s: Seq<usize>, j: nat)
    requires
        j <= s.len(),
        forall|k: int| j <= k < s.len() ==> s[k] == 0,
    ensures
        borrow_from_top(s) == borrow_from_top(s.take(j as int)) + Seq::new(
            (s.len() - j) as nat,
            |k: int| usize::MAX,
        ),
    decreases s.len(),
{
    if s.len() == j {
        assert(s.take(j as int) =~= s);
        assert(borrow_from_top(s) + Seq::new(0, |k: int| usize::MAX) =~= borrow_from_top(s));
    } else {
        let d = s.drop_last();
        lemma_borrow_from_top_zero_top(d, j);
        assert(d.take(j as int) =~= s.take(j as int));
        assert(borrow_from_top(d).push(usize::MAX) =~= borrow_from_top(s.take(j as int))
            + Seq::new((s.len() - j) as nat, |k: int| usize::MAX));
    }
}

/// Column sums: the digit kept and the carry passed on account for the two digits and
/// the incoming carry.
pub proof fn lemma_carry_step(v: nat, c: nat, va: nat, vb: nat, a: nat, b: nat, s: nat, c2: nat, w: nat)
    requires
        v + c * w == va + vb,
        s + c2 * radix() == a + b + c,
    ensures
        v + s * w + c2 * (radix() * w) == (va + a * w) + (vb + b * w),
{
    assert(s * w + c2 * (radix() * w) == a * w + b * w + c * w) by (nonlinear_arith)
        requires
            s + c2 * radix() == a + b + c,
    ;
}

/// Column differences: the digit kept and the borrow passed on account for the two
/// digits and the incoming borrow.
pub proof fn lemma_borrow_step(v: nat, c: nat, va: nat, vb: nat, a: nat, b: nat, d: nat, c2: nat, w: nat)
    requires
        v + vb == va + c * w,
        d + b + c == a + c2 * radix(),
    ensures
        (v + d * w) + (vb + b * w) == (va + a * w) + c2 * (radix() * w),
{
    assert(d * w + b * w + c * w == a * w + c2 * (radix() * w)) by (nonlinear_arith)
        requires
            d + b + c == a + c2 * radix(),
    ;
}

/// No column of the column subtraction of `b` from `a` meets a subtrahend digit of
/// `usize::MAX` while the digits of `a` below that column denote less than those of `b`.
pub open spec fn no_wrapped_borrow(a: Seq<usize>, b: Seq<usize>) -> bool {
    forall|i: int|
        0 <= i < a.len() && digit_at(b, i) == usize::MAX ==> value_below(b, i as nat)
            <= value_below(a, i as nat)
}

/// Where no borrow wraps, the columns below `i` hold the difference of the values below
/// `i`, plus `weight(i)` when a borrow leaves them, and it leaves them exactly when the
/// minuend's part is the smaller.
pub proof fn lemma_columns_exact(a: Seq<usize>, b: Seq<usize>, i: nat)
    requires
        i <= a.len(),
        forall|j: int|
            0 <= j < i && digit_at(b, j) == usize::MAX ==> value_below(b, j as nat)
                <= value_below(a, j as nat),
    ensures
        value_below(column_difference(a, b), i) + value_below(b, i) == value_below(a, i) + bit(
            borrow_into(a, b, i),
        ) * weight(i),
        borrow_into(a, b, i) <==> value_below(a, i) < value_below(b, i),
    decreases i,
{
    if i > 0 {
        let j = (i - 1) as nat;
        lemma_columns_exact(a, b, j);
        let d = column_difference(a, b);
        let aj = digit_at(a, j as int);
        let bj = digit_at(b, j as int);
        let cin = bit(borrow_into(a, b, j));
        let cout = bit(borrow_into(a, b, i));
        let w = weight(j);
        assert(bj + cin < radix());
        lemma_small_mod(bj + cin, radix());
        assert(column_subtrahend(a, b, j) == bj + cin);
        let dj = column_digit(a, b, j);
        assert(digit_at(d, j as int) == dj);
        assert(dj + bj + cin == aj + cout * radix());
        let vd = value_below(d, j);
        let vb = value_below(b, j);
        let va = value_below(a, j);
        assert(vd + dj * w + vb + bj * w == va + aj * w + cout * (radix() * w)) by (nonlinear_arith)
            requires
                vd + vb == va + cin * w,
                dj + bj + cin == aj + cout * radix(),
        ;
        lemma_value_below_bound(d, i);
        lemma_value_below_bound(a, i);
        lemma_value_below_bound(b, i);
    }
}

/// `borrow_from_top` takes one unit of the most significant nonzero digit, at `k`, and
/// fills the positions above it with `usize::MAX`: the value loses `weight(k)` and gains
/// `weight(n) - weight(k + 1)`.
pub proof fn law_borrow_from_top_value(s: Seq<usize>, k: nat)
    requires
        k < s.len(),
        s[k as int] != 0,
        forall|j: int| k < j < s.len() ==> s[j] == 0,
    ensures
        digits_value(borrow_from_top(s)) + weight(k) + weight(k + 1) == digits_value(s) + weight(
            s.len(),
        ),
    decreases s.len(),
{
    let n = s.len();
    let m = (n - 1) as nat;
    let d = s.drop_last();
    crate::digits::lemma_value_drop_last(s);
    crate::digits::lemma_weight_step(m);
    if k == m {
        crate::digits::lemma_value_push(d, (s.last() - 1) as usize);
        assert(d.push((s.last() - 1) as usize) == borrow_from_top(s));
        let l = s.last() as nat;
        let w = weight(m);
        assert((l - 1) * w + w == l * w) by (nonlinear_arith)
            requires
                l >= 1,
        ;
    } else {
        law_borrow_from_top_value(d, k);
        lemma_borrow_from_top_len(d);
        crate::digits::lemma_value_push(borrow_from_top(d), usize::MAX);
        let w = weight(m);
        assert(usize::MAX * w + w == radix() * w) by (nonlinear_arith)
            requires
                radix() == usize::MAX + 1,
        ;
    }
}

/// On digits that are all zero, `borrow_from_top` gives all `usize::MAX`: the value
/// `weight(n) - 1`.
pub proof fn law_borrow_from_top_all_zero(s: Seq<usize>)
    requires
        forall|j: int| 0 <= j < s.len() ==> s[j] == 0,
    ensures
        digits_value(borrow_from_top(s)) + 1 == weight(s.len()),
    decreases s.len(),
{
    if s.len() == 0 {
        assert(digits_value(s) == 0);
    } else {
        let m = (s.len() - 1) as nat;
        let d = s.drop_last();
        law_borrow_from_top_all_zero(d);
        lemma_borrow_from_top_len(d);
        crate::digits::lemma_value_push(borrow_from_top(d), usize::MAX);
        crate::digits::lemma_weight_step(m);
        let w = weight(m);
        assert(usize::MAX * w + w == radix() * w) by (nonlinear_arith)
            requires
                radix() == usize::MAX + 1,
        ;
    }
}

/// Whether the borrow into column `i` is lost: the subtrahend's digit there is
/// `usize::MAX`, so that digit plus the borrow folds to zero in one machine word.
pub open spec fn borrow_wraps(a: Seq<usize>, b: Seq<usize>, i: nat) -> bool {
    digit_at(b, i as int) == usize::MAX && borrow_into(a, b, i)
}

/// The total weight of the borrows lost below position `n`: a borrow lost at column
/// `i` would have taken `weight(i + 1)` from the minuend.
pub open spec fn wrapped_weight(a: Seq<usize>, b: Seq<usize>, n: nat) -> nat
    decreases n,
{
    if n == 0 {
        0
    } else {
        wrapped_weight(a, b, (n - 1) as nat) + if borrow_wraps(a, b, (n - 1) as nat) {
            weight(n)
        } else {
            0
        }
    }
}

/// Whatever the digits, the columns below `i` hold the difference of the values below
/// `i`, plus `weight(i)` when a borrow leaves them, plus the weight of the lost borrows.
pub proof fn lemma_columns_value(a: Seq<usize>, b: Seq<usize>, i: nat)
    requires
        i <= a.len(),
    ensures
        value_below(column_difference(a, b), i) + value_below(b, i) == value_below(a, i) + bit(
            borrow_into(a, b, i),
        ) * weight(i) + wrapped_weight(a, b, i),
    decreases i,
{
    if i > 0 {
        let j = (i - 1) as nat;
        lemma_columns_value(a, b, j);
        let d = column_difference(a, b);
        let aj = digit_at(a, j as int);
        let bj = digit_at(b, j as int);
        let cin = bit(borrow_into(a, b, j));
        let cout = bit(borrow_into(a, b, i));
        let w = weight(j);
        let dj = column_digit(a, b, j);
        assert(digit_at(d, j as int) == dj);
        let vd = value_below(d, j);
        let vb = value_below(b, j);
        let va = value_below(a, j);
        let ww = wrapped_weight(a, b, j);
        assert(weight(i) == radix() * w);
        if borrow_wraps(a, b, j) {
            assert(bj + cin == radix());
            assert(radix() % radix() == 0) by {
                lemma_mod_radix_once(radix());
            }
            assert(column_subtrahend(a, b, j) == 0);
            assert(dj == aj);
            assert(cout == 0);
            assert(vd + dj * w + vb + bj * w == va + aj * w + radix() * w + ww) by (nonlinear_arith)
                requires
                    vd + vb == va + 1 * w + ww,
                    dj == aj,
                    bj + 1 == radix(),
            ;
        } else {
            assert(bj + cin < radix());
            lemma_small_mod(bj + cin, radix());
            assert(column_subtrahend(a, b, j) == bj + cin);
            assert(dj + bj + cin == aj + cout * radix());
            assert(vd + dj * w + vb + bj * w == va + aj * w + cout * (radix() * w) + ww)
                by (nonlinear_arith)
                requires
                    vd + vb == va + cin * w + ww,
                    dj + bj + cin == aj + cout * radix(),
            ;
        }
    }
}

/// When the minuend plus the lost borrows is not below the subtrahend, no borrow leaves
/// the last column and the column difference denotes exactly that difference.
pub proof fn lemma_column_difference_value(a: Seq<usize>, b: Seq<usize>)
    requires
        b.len() <= a.len(),
        digits_value(b) <= digits_value(a) + wrapped_weight(a, b, a.len()),
    ensures
        !borrow_into(a, b, a.len()),
        digits_value(column_difference(a, b)) + digits_value(b) == digits_value(a) + wrapped_weight(
            a,
            b,
            a.len(),
        ),
{
    lemma_columns_value(a, b, a.len());
    crate::digits::lemma_value_below_past_end(b, a.len());
    lemma_value_below_bound(column_difference(a, b), a.len());
}

} // verus!
