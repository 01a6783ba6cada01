//! Exact decimal numbers.
//!
//! A [`Decimal`] is a sign, a sequence of decimal digits and a scale: the
//! number of those digits that stand behind the decimal point. Products are
//! exact. Rounding happens in one place only: where a number is written with
//! [`PLACES`] decimal places.

use crate::digits::{
    all_digits, all_zero, digits_of, digits_value, lemma_digits_of_value, lemma_pow10_add,
    lemma_significant_skip, lemma_successor, lemma_value_suffix_step, lemma_value_update,
    lemma_value_zeros, nat_digits, pow10, significant, successor, zeros,
};
use crate::syntax::{
    digits_end, fraction_at, is_digit, is_number, lemma_digits_end, lemma_digits_end_is,
    number_end, scan_digits, scan_number, sign_end,
};
use crate::text::{chars_of, string_of};
use vstd::prelude::*;

verus! {

/// The number of decimal places that a number is written with.
pub const PLACES: usize = 8;

/// What a [`Decimal`] holds: the number
/// `(-1)^negative * digits_value(digits) / 10^scale`.
pub struct DecimalView {
    pub negative: bool,
    pub digits: Seq<u8>,
    pub scale: nat,
}

impl DecimalView {
    /// At least one digit stands before the decimal point.
    pub open spec fn wf(self) -> bool {
        self.scale < self.digits.len() && all_digits(self.digits)
    }

    /// The digits read as one natural number, the decimal point left out.
    pub open spec fn mantissa(self) -> nat {
        digits_value(self.digits)
    }

    /// Both denote the same number, written with the same scale; they may
    /// differ in leading zeros.
    pub open spec fn same_number(self, other: DecimalView) -> bool {
        self.negative == other.negative && self.scale == other.scale && self.mantissa()
            == other.mantissa()
    }
}

/// The values of the digit characters `cs`.
pub open spec fn digit_values(cs: Seq<char>) -> Seq<u8> {
    Seq::new(cs.len(), |i: int| (cs[i] as int - 48) as u8)
}

/// The characters that write the digits `d`.
pub open spec fn digit_chars(d: Seq<u8>) -> Seq<char> {
    Seq::new(d.len(), |i: int| (d[i] as int + 48) as char)
}

/// The sign as it is written: `-` for a negative number, nothing else.
pub open spec fn sign_text(negative: bool) -> Seq<char> {
    if negative {
        seq!['-']
    } else {
        Seq::empty()
    }
}

/// The number that the token `t` writes: its sign, all of its digits, and as
/// scale the count of the digits behind the point.
pub open spec fn number_view(t: Seq<char>) -> DecimalView {
    let first = sign_end(t, 0);
    let point = digits_end(t, first);
    if point < t.len() {
        DecimalView {
            negative: first == 1,
            digits: digit_values(t.subrange(first, point)) + digit_values(
                t.subrange(point + 1, t.len() as int),
            ),
            scale: (t.len() - point - 1) as nat,
        }
    } else {
        DecimalView {
            negative: first == 1,
            digits: digit_values(t.subrange(first, point)),
            scale: 0,
        }
    }
}

/// The whole number `n` as a decimal without a fraction.
pub open spec fn integer_view(n: int) -> DecimalView {
    DecimalView {
        negative: n < 0,
        digits: nat_digits(
            (if n < 0 {
                -n
            } else {
                n
            }) as nat,
        ),
        scale: 0,
    }
}

/// The exact product: the signs combine, the scales add, and the digits are
/// those of the product of the mantissas, written as wide as both factors
/// together.
pub open spec fn product(a: DecimalView, b: DecimalView) -> DecimalView {
    DecimalView {
        negative: a.negative != b.negative,
        digits: digits_of(a.mantissa() * b.mantissa(), a.digits.len() + b.digits.len()),
        scale: a.scale + b.scale,
    }
}

/// The number written the way its token was: sign, digits, and the point
/// where the scale puts it. Nothing is rounded and nothing is dropped.
pub open spec fn literal_text(v: DecimalView) -> Seq<char> {
    let cut = v.digits.len() - v.scale;
    if v.scale > 0 {
        sign_text(v.negative) + digit_chars(v.digits.take(cut)) + seq!['.'] + digit_chars(
            v.digits.skip(cut),
        )
    } else {
        sign_text(v.negative) + digit_chars(v.digits)
    }
}

/// Whether cutting `dropped` off behind `kept` rounds `kept` up: the part cut
/// off is more than one half of the last place kept, or exactly one half
/// while the last digit kept is odd.
pub open spec fn rounds_up(kept: Seq<u8>, dropped: Seq<u8>) -> bool {
    dropped.len() > 0 && (dropped[0] > 5 || (dropped[0] == 5 && (!all_zero(dropped.skip(1))
        || (kept.len() > 0 && kept.last() % 2 == 1))))
}

/// The digits of `v` at exactly [`PLACES`] decimal places: padded with zeros
/// where the scale is smaller, rounded to the nearest where it is larger, a
/// tie going to the even digit.
pub open spec fn fixed_digits(v: DecimalView) -> Seq<u8> {
    if v.scale <= PLACES {
        v.digits + zeros((PLACES - v.scale) as nat)
    } else {
        let cut = v.digits.len() - (v.scale - PLACES);
        let kept = v.digits.take(cut);
        let dropped = v.digits.skip(cut);
        if rounds_up(kept, dropped) {
            successor(kept)
        } else {
            kept
        }
    }
}

/// The number at [`PLACES`] decimal places: the sign, the whole part without
/// leading zeros, the point, and the places.
pub open spec fn fixed_text(v: DecimalView) -> Seq<char> {
    let f = fixed_digits(v);
    let cut = f.len() - PLACES;
    sign_text(v.negative) + digit_chars(significant(f.take(cut))) + seq!['.'] + digit_chars(
        f.skip(cut),
    )
}

/// `s` without the run of `c` at its end.
pub open spec fn trim_end(s: Seq<char>, c: char) -> Seq<char>
    decreases s.len(),
{
    if s.len() > 0 && s.last() == c {
        trim_end(s.drop_last(), c)
    } else {
        s
    }
}

/// How a number is shown: at [`PLACES`] decimal places, then without the
/// zeros at the end, then without the point if nothing is left behind it.
pub open spec fn number_text(v: DecimalView) -> Seq<char> {
    trim_end(trim_end(fixed_text(v), '0'), '.')
}

/// An exact decimal number.
///
/// Two decimals are equal where they are written the same: `1.5` and `1.50`
/// denote one number and are different decimals. They are shown the same.
#[derive(Debug, PartialEq, Eq)]
pub struct Decimal {
    negative: bool,
    digits: Vec<u8>,
    scale: usize,
}

impl View for Decimal {
    type V = DecimalView;

    closed spec fn view(&self) -> DecimalView {
        DecimalView { negative: self.negative, digits: self.digits@, scale: self.scale as nat }
    }
}

/// A token that is a number, cut out of a longer text, is a number by itself.
pub proof fn lemma_token_is_number(s: Seq<char>, start: int, end: int)
    requires
        0 <= start <= s.len(),
        number_end(s, start) == Some(end),
    ensures
        start < end <= s.len(),
        is_number(s.subrange(start, end)),
        sign_end(s.subrange(start, end), 0) == sign_end(s, start) - start,
        digits_end(s.subrange(start, end), sign_end(s, start) - start) == digits_end(
            s,
            sign_end(s, start),
        ) - start,
{
    let first = sign_end(s, start);
    lemma_digits_end(s, first);
    let point = digits_end(s, first);
    if fraction_at(s, point) {
        lemma_digits_end(s, point + 1);
    }
    let t = s.subrange(start, end);
    assert(forall|i: int| 0 <= i < t.len() ==> t[i] == s[start + i]);
    assert(sign_end(t, 0) == first - start);
    assert forall|i: int| first - start <= i < point - start implies is_digit(#[trigger] t[i]) by {
        assert(is_digit(s[start + i]));
    }
    lemma_digits_end_is(t, first - start, point - start);
    if fraction_at(s, point) {
        assert forall|i: int| point + 1 - start <= i < end - start implies is_digit(
            #[trigger] t[i],
        ) by {
            assert(is_digit(s[start + i]));
        }
        lemma_digits_end_is(t, point + 1 - start, end - start);
        assert(fraction_at(t, point - start));
    } else {
        assert(!fraction_at(t, point - start));
    }
}

/// The view of a number token is well formed.
pub proof fn lemma_number_view_wf(t: Seq<char>)
    requires
        is_number(t),
    ensures
        number_view(t).wf(),
{
    let first = sign_end(t, 0);
    lemma_digits_end(t, first);
    let point = digits_end(t, first);
    if fraction_at(t, point) {
        lemma_digits_end(t, point + 1);
    }
    let v = number_view(t);
    assert forall|i: int| 0 <= i < v.digits.len() implies #[trigger] v.digits[i] <= 9 by {
        if i < point - first {
            assert(is_digit(t[first + i]));
            assert(t.subrange(first, point)[i] == t[first + i]);
        } else {
            let k = i - (point - first);
            assert(is_digit(t[point + 1 + k]));
            assert(t.subrange(point + 1, t.len() as int)[k] == t[point + 1 + k]);
        }
    }
}

/// The character that writes the digit `d`.
fn digit_char(d: u8) -> (c: char)
    requires
        d <= 9,
    ensures
        c == (d as int + 48) as char,
{
    (d + 48) as char
}

/// The first `n` of the digits `d`.
fn copy_digits(d: &[u8], n: usize) -> (r: Vec<u8>)
    requires
        n <= d.len(),
    ensures
        r@ == d@.take(n as int),
{
    let mut r: Vec<u8> = Vec::new();
    let mut i: usize = 0;
    while i < n
        invariant
            i <= n <= d.len(),
            r@ == d@.take(i as int),
        decreases n - i,
    {
        r.push(d[i]);
        i += 1;
        assert(r@ =~= d@.take(i as int));
    }
    r
}

/// Replaces the digits `d` by those of the next number.
fn increment(d: &mut Vec<u8>)
    requires
        all_digits(old(d)@),
    ensures
        final(d)@ == successor(old(d)@),
{
    let ghost orig = d@;
    let n = d.len();
    let mut i: usize = n;
    assert(orig.take(n as int) =~= orig);
    assert(orig + zeros(0) =~= orig);
    assert(successor(orig) + zeros(0) =~= successor(orig));
    while i > 0 && d[i - 1] == 9
        invariant
            i <= n,
            n == orig.len(),
            d@ == orig.take(i as int) + zeros((n - i) as nat),
            successor(orig) == successor(orig.take(i as int)) + zeros((n - i) as nat),
        decreases i,
    {
        proof {
            let part = orig.take(i as int);
            assert(d@[i - 1] == part[i - 1]);
            assert(part.last() == 9);
            assert(part.drop_last() =~= orig.take(i - 1));
            assert(successor(part) == successor(orig.take(i - 1)).push(0u8));
            assert(successor(orig.take(i - 1)).push(0u8) + zeros((n - i) as nat) =~= successor(
                orig.take(i - 1),
            ) + zeros((n - i + 1) as nat));
        }
        d.set(i - 1, 0);
        i -= 1;
        assert(d@ =~= orig.take(i as int) + zeros((n - i) as nat));
    }
    if i > 0 {
        let x = d[i - 1];
        proof {
            let part = orig.take(i as int);
            assert(d@[i - 1] == part[i - 1]);
            assert(part.last() == x);
            assert(x <= 9);
        }
        d.set(i - 1, x + 1);
        assert(d@ =~= successor(orig.take(i as int)) + zeros((n - i) as nat));
    } else {
        assert(orig.take(0) =~= Seq::<u8>::empty());
        d.insert(0, 1);
        assert(d@ =~= seq![1u8] + zeros(n as nat));
    }
}

/// Removes the run of `c` at the end of `text`.
fn trim(text: &mut Vec<char>, c: char)
    ensures
        final(text)@ == trim_end(old(text)@, c),
{
    while text.len() > 0 && text[text.len() - 1] == c
        invariant
            trim_end(text@, c) == trim_end(old(text)@, c),
        decreases text.len(),
    {
        let ghost before = text@;
        text.pop();
        assert(text@ =~= before.drop_last());
    }
}

impl Decimal {
    /// Every `Decimal` holds a well-formed view.
    #[verifier::type_invariant]
    pub closed spec fn inv(self) -> bool {
        self.scale < self.digits@.len() && all_digits(self.digits@)
    }

    /// The number that the characters `chars[start..end]` write.
    pub(crate) fn from_token(chars: &[char], start: usize, end: usize) -> (r: Decimal)
        requires
            start <= chars.len(),
            number_end(chars@, start as int) == Some(end as int),
        ensures
            r@ == number_view(chars@.subrange(start as int, end as int)),
            r@.wf(),
    {
        proof {
            lemma_token_is_number(chars@, start as int, end as int);
            lemma_number_view_wf(chars@.subrange(start as int, end as int));
            lemma_digits_end(chars@, sign_end(chars@, start as int));
        }
        let ghost t = chars@.subrange(start as int, end as int);
        let negative = chars[start] == '-';
        let first: usize = if negative {
            start + 1
        } else {
            start
        };
        let point = scan_digits(chars, first);
        proof {
            if fraction_at(chars@, point as int) {
                lemma_digits_end(chars@, point + 1);
            }
        }
        let mut digits: Vec<u8> = Vec::new();
        let mut i: usize = first;
        while i < point
            invariant
                first <= i <= point <= chars.len(),
                forall|k: int| first <= k < point ==> is_digit(#[trigger] chars@[k]),
                digits@ == digit_values(chars@.subrange(first as int, i as int)),
            decreases point - i,
        {
            let c = chars[i];
            digits.push((c as u8) - 48);
            i += 1;
            assert(digits@ =~= digit_values(chars@.subrange(first as int, i as int)));
        }
        let ghost whole = digits@;
        assert(chars@.subrange(first as int, point as int) =~= t.subrange(
            first - start,
            point - start,
        ));
        let mut scale: usize = 0;
        if point < end {
            let mut j: usize = point + 1;
            while j < end
                invariant
                    point + 1 <= j <= end <= chars.len(),
                    forall|k: int| point + 1 <= k < end ==> is_digit(#[trigger] chars@[k]),
                    digits@ == whole + digit_values(chars@.subrange(point + 1, j as int)),
                decreases end - j,
            {
                let c = chars[j];
                digits.push((c as u8) - 48);
                j += 1;
                assert(digits@ =~= whole + digit_values(chars@.subrange(point + 1, j as int)));
            }
            scale = end - point - 1;
            assert(chars@.subrange(point + 1, end as int) =~= t.subrange(
                point + 1 - start,
                t.len() as int,
            ));
        }
        Decimal { negative, digits, scale }
    }

    /// Reads `text` as a number: `None` unless the whole of it is one.
    pub fn parse(text: &str) -> (r: Option<Decimal>)
        ensures
            r is Some <==> is_number(text@),
            r matches Some(d) ==> d@ == number_view(text@) && d@.wf(),
    {
        let chars = chars_of(text);
        match scan_number(&chars, 0) {
            Some(end) => {
                if end == chars.len() {
                    assert(chars@.subrange(0, end as int) =~= chars@);
                    Some(Decimal::from_token(&chars, 0, end))
                } else {
                    None
                }
            },
            None => None,
        }
    }

    /// The whole number `n`, written without leading zeros.
    pub fn from_integer(n: isize) -> (r: Decimal)
        ensures
            r@ == integer_view(n as int),
            r@.wf(),
    {
        let wide: i128 = n as i128;
        let magnitude: u128 = if wide < 0 {
            (-wide) as u128
        } else {
            wide as u128
        };
        let mut low_first: Vec<u8> = Vec::new();
        let mut m: u128 = magnitude;
        while m >= 10
            invariant
                nat_digits(magnitude as nat) == nat_digits(m as nat) + low_first@.reverse(),
                all_digits(low_first@),
            decreases m,
        {
            let ghost before = low_first@;
            low_first.push((m % 10) as u8);
            assert(low_first@.reverse() =~= seq![(m % 10) as u8] + before.reverse());
            assert(nat_digits(m as nat) == nat_digits((m / 10) as nat).push((m % 10) as u8));
            assert(nat_digits(m as nat) + before.reverse() =~= nat_digits((m / 10) as nat)
                + low_first@.reverse());
            m = m / 10;
        }
        let ghost before = low_first@;
        low_first.push(m as u8);
        assert(low_first@.reverse() =~= seq![m as u8] + before.reverse());
        assert(nat_digits(m as nat) =~= seq![m as u8]);
        assert(nat_digits(magnitude as nat) == low_first@.reverse());
        let mut digits: Vec<u8> = Vec::new();
        let mut i: usize = low_first.len();
        while i > 0
            invariant
                i <= low_first.len(),
                digits@ == low_first@.reverse().take(low_first.len() - i),
            decreases i,
        {
            i -= 1;
            digits.push(low_first[i]);
            assert(digits@ =~= low_first@.reverse().take(low_first.len() - i));
        }
        assert(digits@ =~= low_first@.reverse());
        assert forall|k: int| 0 <= k < digits@.len() implies #[trigger] digits@[k] <= 9 by {
            assert(digits@[k] == low_first@[low_first@.len() - 1 - k]);
        }
        Decimal { negative: n < 0, digits, scale: 0 }
    }

    /// The exact product of two numbers.
    pub fn multiply(&self, other: &Decimal) -> (r: Decimal)
        ensures
            r@ == product(self@, other@),
            r@.wf(),
    {
        proof {
            use_type_invariant(self);
            use_type_invariant(other);
        }
        let la = self.digits.len();
        let lb = other.digits.len();
        let ghost a = self.digits@;
        let ghost b = other.digits@;
        let ghost va = digits_value(a) as int;
        let mut acc: Vec<u8> = Vec::new();
        let mut n: usize = 0;
        while n < la
            invariant
                n <= la,
                acc@ == zeros(n as nat),
            decreases la - n,
        {
            acc.push(0);
            n += 1;
            assert(acc@ =~= zeros(n as nat));
        }
        n = 0;
        while n < lb
            invariant
                n <= lb,
                acc@ == zeros((la + n) as nat),
            decreases lb - n,
        {
            acc.push(0);
            n += 1;
            assert(acc@ =~= zeros((la + n) as nat));
        }
        let total = acc.len();
        proof {
            lemma_value_zeros((la + lb) as nat);
            assert(b.skip(lb as int) =~= Seq::<u8>::empty());
            assert(va * 0 == 0);
        }
        let mut j: usize = 0;
        while j < lb
            invariant
                j <= lb,
                la == a.len(),
                lb == b.len(),
                a == self.digits@,
                b == other.digits@,
                va == digits_value(a),
                all_digits(a),
                all_digits(b),
                acc.len() == total,
                total == la + lb,
                all_digits(acc@),
                digits_value(acc@) == va * digits_value(b.skip(lb - j)),
                forall|p: int| 0 <= p < lb - j ==> #[trigger] acc@[p] == 0,
            decreases lb - j,
        {
            let bj = other.digits[lb - 1 - j];
            let ghost vbj = digits_value(b.skip(lb - j)) as int;
            let ghost pj = pow10(j as nat) as int;
            let mut carry: u8 = 0;
            let mut i: usize = 0;
            proof {
                assert(a.skip(la as int) =~= Seq::<u8>::empty());
                let none = digits_value(a.skip(la as int)) as int;
                assert(none * bj * pj == 0) by (nonlinear_arith)
                    requires
                        none == 0,
                ;
            }
            while i < la
                invariant
                    i <= la,
                    j < lb,
                    la == a.len(),
                    lb == b.len(),
                    a == self.digits@,
                    b == other.digits@,
                    va == digits_value(a),
                    all_digits(a),
                    all_digits(b),
                    bj == b[lb - 1 - j],
                    vbj == digits_value(b.skip(lb - j)),
                    pj == pow10(j as nat),
                    acc.len() == total,
                    total == la + lb,
                    all_digits(acc@),
                    carry <= 9,
                    digits_value(acc@) + carry * pow10((i + j) as nat) == va * vbj + digits_value(
                        a.skip(la - i),
                    ) * bj * pj,
                    forall|p: int| 0 <= p < lb - j ==> #[trigger] acc@[p] == 0,
                decreases la - i,
            {
                let p: usize = total - 1 - i - j;
                let ai = self.digits[la - 1 - i];
                assert(ai <= 9 && bj <= 9);
                assert(ai * bj <= 81) by (nonlinear_arith)
                    requires
                        ai <= 9,
                        bj <= 9,
                ;
                let t: u8 = acc[p] + ai * bj + carry;
                let ghost before = acc@;
                let ghost old_carry = carry as int;
                acc.set(p, t % 10);
                carry = t / 10;
                proof {
                    let w = pow10((i + j) as nat) as int;
                    let pi = pow10(i as nat) as int;
                    let sa = digits_value(a.skip(la - i)) as int;
                    lemma_value_update(before, p as int, (t % 10) as u8);
                    lemma_pow10_add(i as nat, j as nat);
                    lemma_value_suffix_step(a, i as nat);
                    assert(pow10((i + 1 + j) as nat) == 10 * w);
                    let v0 = digits_value(before) as int;
                    let v1 = digits_value(acc@) as int;
                    let d0 = before[p as int] as int;
                    let lo = (t % 10) as int;
                    let hi = (t / 10) as int;
                    let x = ai as int;
                    let y = bj as int;
                    assert(v1 + d0 * w == v0 + lo * w);
                    assert(lo + 10 * hi == d0 + x * y + old_carry);
                    assert(v0 + old_carry * w == va * vbj + sa * y * pj);
                    assert(w == pi * pj);
                    let xy = x * y;
                    assert((lo + 10 * hi) * w == lo * w + 10 * (hi * w)) by (nonlinear_arith);
                    assert((d0 + xy + old_carry) * w == d0 * w + xy * w + old_carry * w)
                        by (nonlinear_arith);
                    assert(hi * (10 * w) == 10 * (hi * w)) by (nonlinear_arith);
                    assert(xy * w == (x * pi) * y * pj) by (nonlinear_arith)
                        requires
                            w == pi * pj,
                            xy == x * y,
                    ;
                    assert((x * pi + sa) * y * pj == (x * pi) * y * pj + sa * y * pj)
                        by (nonlinear_arith);
                    assert(v1 + hi * (10 * w) == va * vbj + (x * pi + sa) * y * pj);
                    assert forall|k: int| 0 <= k < acc@.len() implies #[trigger] acc@[k] <= 9 by {
                        if k != p {
                            assert(acc@[k] == before[k]);
                        }
                    }
                }
                i += 1;
            }
            let ghost before = acc@;
            acc.set(lb - 1 - j, carry);
            proof {
                let q = lb - 1 - j;
                assert(a.skip(0) =~= a);
                assert(before[q] == 0);
                lemma_value_update(before, q, carry);
                lemma_value_suffix_step(b, j as nat);
                let w = pow10((la + j) as nat) as int;
                assert(total - 1 - q == la + j);
                let v0 = digits_value(before) as int;
                let v1 = digits_value(acc@) as int;
                let c = carry as int;
                let y = bj as int;
                assert(v1 + 0 * w == v0 + c * w);
                assert(v0 + c * w == va * vbj + va * y * pj);
                assert(v1 == va * (y * pj + vbj)) by (nonlinear_arith)
                    requires
                        v1 + 0 * w == v0 + c * w,
                        v0 + c * w == va * vbj + va * y * pj,
                ;
                assert forall|k: int| 0 <= k < acc@.len() implies #[trigger] acc@[k] <= 9 by {
                    if k != q {
                        assert(acc@[k] == before[k]);
                    }
                }
            }
            j += 1;
        }
        proof {
            assert(b.skip(0) =~= b);
            lemma_digits_of_value(acc@);
        }
        Decimal {
            negative: self.negative != other.negative,
            digits: acc,
            scale: self.scale + other.scale,
        }
    }

    /// The digits of this number at [`PLACES`] decimal places.
    fn fixed(&self) -> (f: Vec<u8>)
        ensures
            f@ == fixed_digits(self@),
            f@.len() > PLACES,
            all_digits(f@),
    {
        proof {
            use_type_invariant(self);
        }
        let len = self.digits.len();
        if self.scale <= PLACES {
            let mut f = copy_digits(&self.digits, len);
            assert(self.digits@.take(len as int) =~= self.digits@);
            let mut k: usize = self.scale;
            while k < PLACES
                invariant
                    self.scale <= k <= PLACES,
                    f@ == self.digits@ + zeros((k - self.scale) as nat),
                decreases PLACES - k,
            {
                f.push(0);
                k += 1;
                assert(f@ =~= self.digits@ + zeros((k - self.scale) as nat));
            }
            f
        } else {
            let cut: usize = len - (self.scale - PLACES);
            let mut kept = copy_digits(&self.digits, cut);
            let ghost dropped = self.digits@.skip(cut as int);
            let first = self.digits[cut];
            assert(dropped[0] == first);
            let mut up = first > 5;
            if first == 5 {
                let mut k: usize = cut + 1;
                let ghost mut witness: int = 0;
                let mut nonzero = false;
                while k < len
                    invariant
                        cut + 1 <= k <= len,
                        len == self.digits@.len(),
                        !nonzero ==> forall|x: int| cut + 1 <= x < k ==> #[trigger] self.digits@[x]
                            == 0,
                        nonzero ==> cut + 1 <= witness < len && self.digits@[witness] != 0,
                    decreases len - k,
                {
                    if self.digits[k] != 0 {
                        nonzero = true;
                        proof {
                            witness = k as int;
                        }
                    }
                    k += 1;
                }
                proof {
                    let rest = dropped.skip(1);
                    if nonzero {
                        assert(rest[witness - cut - 1] == self.digits@[witness]);
                    } else {
                        assert forall|x: int| 0 <= x < rest.len() implies #[trigger] rest[x]
                            == 0 by {
                            assert(rest[x] == self.digits@[cut + 1 + x]);
                        }
                    }
                }
                up = nonzero || kept[cut - 1] % 2 == 1;
            }
            assert(up == rounds_up(self.digits@.take(cut as int), dropped));
            if up {
                proof {
                    lemma_successor(kept@);
                }
                increment(&mut kept);
            }
            kept
        }
    }

    /// Appends to `out` how this number is shown.
    pub fn write_text(&self, out: &mut Vec<char>)
        ensures
            final(out)@ == old(out)@ + number_text(self@),
    {
        let f = self.fixed();
        let cut: usize = f.len() - PLACES;
        let mut text: Vec<char> = Vec::new();
        if self.negative {
            text.push('-');
        }
        assert(text@ =~= sign_text(self@.negative));
        let mut i: usize = 0;
        while i + 1 < cut && f[i] == 0
            invariant
                i < cut <= f.len(),
                forall|k: int| 0 <= k < i ==> #[trigger] f@[k] == 0,
            decreases cut - i,
        {
            i += 1;
        }
        let ghost whole = f@.subrange(i as int, cut as int);
        proof {
            let part = f@.take(cut as int);
            assert forall|k: int| 0 <= k < i implies #[trigger] part[k] == 0 by {
                assert(part[k] == f@[k]);
            }
            lemma_significant_skip(part, i as int);
            assert(part.skip(i as int) =~= whole);
            assert(significant(whole) == whole);
        }
        let start = i;
        while i < cut
            invariant
                start <= i <= cut <= f.len(),
                all_digits(f@),
                text@ == sign_text(self@.negative) + digit_chars(
                    f@.subrange(start as int, i as int),
                ),
            decreases cut - i,
        {
            text.push(digit_char(f[i]));
            i += 1;
            assert(text@ =~= sign_text(self@.negative) + digit_chars(
                f@.subrange(start as int, i as int),
            ));
        }
        text.push('.');
        let ghost head = text@;
        while i < f.len()
            invariant
                cut <= i <= f.len(),
                all_digits(f@),
                text@ == head + digit_chars(f@.subrange(cut as int, i as int)),
            decreases f.len() - i,
        {
            text.push(digit_char(f[i]));
            i += 1;
            assert(text@ =~= head + digit_chars(f@.subrange(cut as int, i as int)));
        }
        assert(f@.subrange(cut as int, f.len() as int) =~= f@.skip(cut as int));
        assert(text@ =~= fixed_text(self@));
        trim(&mut text, '0');
        trim(&mut text, '.');
        out.append(&mut text);
    }

    /// Appends to `out` this number as its token wrote it.
    pub fn write_literal(&self, out: &mut Vec<char>)
        ensures
            final(out)@ == old(out)@ + literal_text(self@),
    {
        proof {
            use_type_invariant(self);
        }
        let ghost before = out@;
        let len = self.digits.len();
        let cut: usize = len - self.scale;
        if self.negative {
            out.push('-');
        }
        assert(out@ =~= before + sign_text(self@.negative));
        let mut i: usize = 0;
        while i < cut
            invariant
                i <= cut <= len,
                len == self.digits@.len(),
                all_digits(self.digits@),
                out@ == before + sign_text(self@.negative) + digit_chars(
                    self.digits@.take(i as int),
                ),
            decreases cut - i,
        {
            out.push(digit_char(self.digits[i]));
            i += 1;
            assert(out@ =~= before + sign_text(self@.negative) + digit_chars(
                self.digits@.take(i as int),
            ));
        }
        if self.scale > 0 {
            out.push('.');
            let ghost head = out@;
            while i < len
                invariant
                    cut <= i <= len,
                    len == self.digits@.len(),
                    all_digits(self.digits@),
                    out@ == head + digit_chars(self.digits@.subrange(cut as int, i as int)),
                decreases len - i,
            {
                out.push(digit_char(self.digits[i]));
                i += 1;
                assert(out@ =~= head + digit_chars(self.digits@.subrange(cut as int, i as int)));
            }
            assert(self.digits@.subrange(cut as int, len as int) =~= self.digits@.skip(
                cut as int,
            ));
            assert(out@ =~= before + literal_text(self@));
        } else {
            assert(self.digits@.take(cut as int) =~= self.digits@);
            assert(out@ =~= before + literal_text(self@));
        }
    }

    /// This number as its token wrote it.
    pub fn to_literal(&self) -> (s: String)
        ensures
            s@ == literal_text(self@),
    {
        let mut out: Vec<char> = Vec::new();
        self.write_literal(&mut out);
        assert(out@ =~= literal_text(self@));
        let s = string_of(&out, 0, out.len());
        assert(out@.subrange(0, out.len() as int) =~= out@);
        s
    }

    /// How this number is shown.
    pub fn to_text(&self) -> (s: String)
        ensures
            s@ == number_text(self@),
    {
        let mut out: Vec<char> = Vec::new();
        self.write_text(&mut out);
        assert(out@ =~= number_text(self@));
        let s = string_of(&out, 0, out.len());
        assert(out@.subrange(0, out.len() as int) =~= out@);
        s
    }
}

impl Clone for Decimal {
    fn clone(&self) -> (r: Decimal)
        ensures
            r@ == self@,
    {
        proof {
            use_type_invariant(self);
        }
        let mut digits: Vec<u8> = Vec::new();
        let mut i: usize = 0;
        while i < self.digits.len()
            invariant
                i <= self.digits.len(),
                digits@ == self.digits@.take(i as int),
            decreases self.digits.len() - i,
        {
            digits.push(self.digits[i]);
            i += 1;
            assert(digits@ =~= self.digits@.take(i as int));
        }
        assert(digits@ =~= self.digits@);
        Decimal { negative: self.negative, digits, scale: self.scale }
    }
}

} // verus!
