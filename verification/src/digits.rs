//! Sequences of decimal digits, most significant digit first, and the
//! natural numbers they denote.

use vstd::prelude::*;

verus! {

/// Ten to the power `n`.
pub open spec fn pow10(n: nat) -> nat
    decreases n,
{
    if n == 0 {
        1
    } else {
        10 * pow10((n - 1) as nat)
    }
}

/// Every element of `d` is a decimal digit.
pub open spec fn all_digits(d: Seq<u8>) -> bool {
    forall|i: int| 0 <= i < d.len() ==> #[trigger] d[i] <= 9
}

/// Every element of `d` is zero.
pub open spec fn all_zero(d: Seq<u8>) -> bool {
    forall|i: int| 0 <= i < d.len() ==> #[trigger] d[i] == 0
}

/// `n` zero digits.
pub open spec fn zeros(n: nat) -> Seq<u8> {
    Seq::new(n, |i: int| 0u8)
}

/// The number that the digits `d` denote, read most significant digit first.
pub open spec fn digits_value(d: Seq<u8>) -> nat
    decreases d.len(),
{
    if d.len() == 0 {
        0
    } else {
        10 * digits_value(d.drop_last()) + d.last() as nat
    }
}

/// The digits of `n` without leading zeros; a single `0` for zero.
pub open spec fn nat_digits(n: nat) -> Seq<u8>
    decreases n,
{
    if n < 10 {
        seq![n as u8]
    } else {
        nat_digits(n / 10).push((n % 10) as u8)
    }
}

/// The last `width` digits of `n`, padded with leading zeros.
pub open spec fn digits_of(n: nat, width: nat) -> Seq<u8>
    decreases width,
{
    if width == 0 {
        Seq::empty()
    } else {
        digits_of(n / 10, (width - 1) as nat).push((n % 10) as u8)
    }
}

/// `d` without its leading zeros, but never without its last digit.
pub open spec fn significant(d: Seq<u8>) -> Seq<u8>
    decreases d.len(),
{
    if d.len() > 1 && d[0] == 0 {
        significant(d.drop_first())
    } else {
        d
    }
}

/// The digits of the number that follows the one `d` denotes. The result is
/// one digit longer than `d` exactly when `d` consists of nines only.
pub open spec fn successor(d: Seq<u8>) -> Seq<u8>
    decreases d.len(),
{
    if d.len() == 0 {
        seq![1u8]
    } else if d.last() < 9 {
        d.update(d.len() - 1, (d.last() + 1) as u8)
    } else {
        successor(d.drop_last()).push(0u8)
    }
}

/// A power of ten is positive.
pub proof fn lemma_pow10_positive(n: nat)
    ensures
        pow10(n) > 0,
    decreases n,
{
    if n > 0 {
        lemma_pow10_positive((n - 1) as nat);
    }
}

/// The powers of ten multiply as their exponents add.
pub proof fn lemma_pow10_add(a: nat, b: nat)
    ensures
        pow10(a + b) == pow10(a) * pow10(b),
    decreases a,
{
    if a == 0 {
        assert(pow10(0) == 1);
        assert(1 * pow10(b) == pow10(b));
    } else {
        lemma_pow10_add((a - 1) as nat, b);
        let x = pow10((a - 1) as nat);
        let y = pow10(b);
        assert(pow10(a + b) == 10 * pow10((a - 1 + b) as nat));
        assert(10 * (x * y) == (10 * x) * y) by (nonlinear_arith);
    }
}

/// The value of a concatenation: the left part is shifted by the length of
/// the right part.
pub proof fn lemma_value_concat(a: Seq<u8>, b: Seq<u8>)
    ensures
        digits_value(a + b) == digits_value(a) * pow10(b.len()) + digits_value(b),
    decreases b.len(),
{
    if b.len() == 0 {
        assert(a + b =~= a);
        assert(digits_value(a) * 1 == digits_value(a));
    } else {
        let b0 = b.drop_last();
        assert((a + b).drop_last() =~= a + b0);
        assert((a + b).last() == b.last());
        lemma_value_concat(a, b0);
        let va = digits_value(a) as int;
        let p = pow10(b0.len()) as int;
        let vb0 = digits_value(b0) as int;
        assert(pow10(b.len()) == 10 * p);
        assert(10 * (va * p + vb0) == va * (10 * p) + 10 * vb0) by (nonlinear_arith);
    }
}

/// A single digit denotes itself.
pub proof fn lemma_value_single(x: u8)
    ensures
        digits_value(seq![x]) == x as nat,
{
    let s = seq![x];
    assert(s.drop_last() =~= Seq::<u8>::empty());
    assert(digits_value(s.drop_last()) == 0);
}

/// Replacing the digit at `p` changes the value by the difference of the two
/// digits, weighted by the position.
pub proof fn lemma_value_update(d: Seq<u8>, p: int, x: u8)
    requires
        0 <= p < d.len(),
    ensures
        digits_value(d.update(p, x)) + d[p] as nat * pow10((d.len() - 1 - p) as nat)
            == digits_value(d) + x as nat * pow10((d.len() - 1 - p) as nat),
{
    let left = d.take(p);
    let right = d.skip(p + 1);
    let w = pow10(right.len());
    assert(d =~= left + seq![d[p]] + right);
    assert(d.update(p, x) =~= left + seq![x] + right);
    lemma_value_concat(left + seq![d[p]], right);
    lemma_value_concat(left + seq![x], right);
    lemma_value_concat(left, seq![d[p]]);
    lemma_value_concat(left, seq![x]);
    lemma_value_single(d[p]);
    lemma_value_single(x);
    let vl = digits_value(left) as int;
    let old_digit = d[p] as int;
    let new_digit = x as int;
    let wi = w as int;
    assert(pow10(1) == 10) by {
        assert(pow10(0) == 1);
    }
    assert((vl * 10 + new_digit) * wi + old_digit * wi == (vl * 10 + old_digit) * wi + new_digit
        * wi) by (nonlinear_arith);
}

/// Zeros denote zero.
pub proof fn lemma_value_zeros(n: nat)
    ensures
        digits_value(zeros(n)) == 0,
    decreases n,
{
    if n > 0 {
        assert(zeros(n).drop_last() =~= zeros((n - 1) as nat));
        lemma_value_zeros((n - 1) as nat);
    }
}

/// A number written with `n` digits is below ten to the `n`.
pub proof fn lemma_value_bound(d: Seq<u8>)
    requires
        all_digits(d),
    ensures
        digits_value(d) < pow10(d.len()),
    decreases d.len(),
{
    if d.len() > 0 {
        lemma_value_bound(d.drop_last());
        assert(d.last() <= 9);
    }
}

/// The value of the last `k + 1` digits, from that of the last `k`.
pub proof fn lemma_value_suffix_step(d: Seq<u8>, k: nat)
    requires
        k < d.len(),
    ensures
        digits_value(d.skip(d.len() - 1 - k)) == d[d.len() - 1 - k] as nat * pow10(k)
            + digits_value(d.skip(d.len() - k)),
{
    let p = d.len() - 1 - k;
    let tail = d.skip(p + 1);
    assert(d.skip(p) =~= seq![d[p]] + tail);
    lemma_value_concat(seq![d[p]], tail);
    lemma_value_single(d[p]);
}

/// The successor denotes the next number and consists of digits.
pub proof fn lemma_successor(d: Seq<u8>)
    requires
        all_digits(d),
    ensures
        all_digits(successor(d)),
        digits_value(successor(d)) == digits_value(d) + 1,
        d.len() <= successor(d).len() <= d.len() + 1,
    decreases d.len(),
{
    if d.len() == 0 {
        lemma_value_single(1u8);
    } else if d.last() < 9 {
        let s = d.update(d.len() - 1, (d.last() + 1) as u8);
        assert(s.drop_last() =~= d.drop_last());
    } else {
        let init = d.drop_last();
        lemma_successor(init);
        let s = successor(init).push(0u8);
        assert(s.drop_last() =~= successor(init));
        assert(d.last() == 9);
    }
}

/// A sequence of digits is the fixed-width writing of its own value.
pub proof fn lemma_digits_of_value(d: Seq<u8>)
    requires
        all_digits(d),
    ensures
        digits_of(digits_value(d), d.len()) == d,
    decreases d.len(),
{
    if d.len() > 0 {
        let init = d.drop_last();
        lemma_digits_of_value(init);
        assert(d.last() <= 9);
        let v = digits_value(d);
        assert(v / 10 == digits_value(init));
        assert(v % 10 == d.last() as nat);
        assert(digits_of(v, d.len()) =~= d);
    } else {
        assert(digits_of(digits_value(d), d.len()) =~= d);
    }
}

/// The fixed-width writing consists of `width` digits, and denotes `n` when
/// `n` fits.
pub proof fn lemma_digits_of(n: nat, width: nat)
    ensures
        digits_of(n, width).len() == width,
        all_digits(digits_of(n, width)),
        n < pow10(width) ==> digits_value(digits_of(n, width)) == n,
    decreases width,
{
    if width > 0 {
        lemma_digits_of(n / 10, (width - 1) as nat);
        let d = digits_of(n, width);
        assert(d.drop_last() =~= digits_of(n / 10, (width - 1) as nat));
        if n < pow10(width) {
            assert(n / 10 < pow10((width - 1) as nat));
        }
    }
}

/// Below its first `i` digits, all of them zero, `d` has the same
/// significant digits.
pub proof fn lemma_significant_skip(d: Seq<u8>, i: int)
    requires
        0 <= i < d.len(),
        forall|k: int| 0 <= k < i ==> #[trigger] d[k] == 0,
    ensures
        significant(d) == significant(d.skip(i)),
    decreases i,
{
    if i == 0 {
        assert(d.skip(0) =~= d);
    } else {
        assert(d[0] == 0);
        let rest = d.drop_first();
        assert forall|k: int| 0 <= k < i - 1 implies #[trigger] rest[k] == 0 by {
            assert(rest[k] == d[k + 1]);
        }
        lemma_significant_skip(rest, i - 1);
        assert(rest.skip(i - 1) =~= d.skip(i));
    }
}

/// The first digits of a number denote no more than the whole of it.
pub proof fn lemma_value_prefix(d: Seq<u8>, i: int)
    requires
        0 <= i <= d.len(),
    ensures
        digits_value(d.take(i)) <= digits_value(d),
{
    assert(d =~= d.take(i) + d.skip(i));
    lemma_value_concat(d.take(i), d.skip(i));
    lemma_pow10_positive(d.skip(i).len());
    let x = digits_value(d.take(i)) as int;
    let p = pow10(d.skip(i).len()) as int;
    assert(x <= x * p) by (nonlinear_arith)
        requires
            x >= 0,
            p >= 1,
    ;
}

} // verus!
