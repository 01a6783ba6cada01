//! What holds of every subject and of every command.

use crate::command::{
    lemma_pieces_literal_concat, lemma_pieces_text_concat, piece_literal, pieces_literal,
    pieces_text, ArgumentView, OperationType, OperationView, PieceView,
};
use crate::decimal::{
    digit_chars, digit_values, fixed_digits, fixed_text, integer_view, lemma_token_is_number,
    literal_text, number_text, number_view, product, rounds_up, sign_text, DecimalView, PLACES,
};
use crate::digits::{
    all_digits, all_zero, digits_of, digits_value, lemma_digits_of, lemma_digits_of_value,
    lemma_pow10_add, lemma_pow10_positive, lemma_successor, lemma_value_bound,
    lemma_value_concat, lemma_value_single, lemma_value_zeros, pow10, significant, successor,
    zeros,
};
use crate::evaluating::{
    argument_number, lemma_number_position, multiply_all, multiply_one, number_count,
    number_position, outcome, repeated, resolved_index, run, scaled, step, turned,
    EvalErrorView, Outcome,
};
use crate::grammar::{command_at, lemma_command_at, OperationSpan};
use crate::parsing::{command_of, operations_value, ParseErrorView};
use crate::segment::{
    lemma_piece_at, lemma_spans_from, lemma_text_end, piece_at, piece_of, pieces_of, segments,
    spans_from, text_end,
};
use crate::syntax::{
    digits_end, fraction_at, is_digit, is_number, lemma_digits_end, sign_end,
};
use vstd::prelude::*;

verus! {

/// Writing the values of digit characters gives the characters back.
pub proof fn digits_write_themselves(cs: Seq<char>)
    requires
        forall|i: int| 0 <= i < cs.len() ==> is_digit(#[trigger] cs[i]),
    ensures
        digit_chars(digit_values(cs)) == cs,
{
    assert forall|i: int| 0 <= i < cs.len() implies digit_chars(digit_values(cs))[i] == cs[i] by {
        assert(is_digit(cs[i]));
    }
    assert(digit_chars(digit_values(cs)) =~= cs);
}

/// A number keeps its token: written as a literal, the number that a token
/// writes is the token again, with every digit and every zero of it.
pub proof fn number_keeps_its_token(t: Seq<char>)
    requires
        is_number(t),
    ensures
        literal_text(number_view(t)) == t,
{
    let first = sign_end(t, 0);
    lemma_digits_end(t, first);
    let point = digits_end(t, first);
    let whole = t.subrange(first, point);
    assert forall|i: int| 0 <= i < whole.len() implies is_digit(#[trigger] whole[i]) by {
        assert(whole[i] == t[first + i]);
    }
    digits_write_themselves(whole);
    let v = number_view(t);
    assert(sign_text(v.negative) =~= t.subrange(0, first));
    if point < t.len() {
        assert(fraction_at(t, point));
        lemma_digits_end(t, point + 1);
        let places = t.subrange(point + 1, t.len() as int);
        assert forall|i: int| 0 <= i < places.len() implies is_digit(#[trigger] places[i]) by {
            assert(places[i] == t[point + 1 + i]);
        }
        digits_write_themselves(places);
        let cut = v.digits.len() - v.scale;
        assert(cut == point - first);
        assert(v.digits.take(cut) =~= digit_values(whole));
        assert(v.digits.skip(cut) =~= digit_values(places));
        assert(t.subrange(0, first) + whole + seq!['.'] + places =~= t);
    } else {
        assert(t.subrange(0, first) + whole =~= t);
    }
}

proof fn pieces_join_from(s: Seq<char>, at: int)
    requires
        0 <= at <= s.len(),
    ensures
        pieces_literal(pieces_of(s, spans_from(s, at))) == s.subrange(at, s.len() as int),
    decreases s.len() - at,
{
    if at < s.len() {
        lemma_piece_at(s, at);
        let first = piece_at(s, at);
        let rest = spans_from(s, first.end);
        pieces_join_from(s, first.end);
        let piece = piece_of(s, first);
        assert(pieces_of(s, spans_from(s, at)) =~= seq![piece] + pieces_of(s, rest));
        lemma_pieces_literal_concat(seq![piece], pieces_of(s, rest));
        assert(seq![piece].drop_last() =~= Seq::<PieceView>::empty());
        assert(seq![piece].last() == piece);
        assert(pieces_literal(Seq::<PieceView>::empty()) =~= Seq::<char>::empty());
        assert(pieces_literal(seq![piece]) =~= piece_literal(piece));
        if first.number {
            lemma_token_is_number(s, at, first.end);
            number_keeps_its_token(s.subrange(at, first.end));
        }
        assert(piece_literal(piece) == s.subrange(at, first.end));
        assert(s.subrange(at, first.end) + s.subrange(first.end, s.len() as int) =~= s.subrange(
            at,
            s.len() as int,
        ));
    } else {
        assert(pieces_of(s, spans_from(s, at)) =~= Seq::<PieceView>::empty());
        assert(s.subrange(at, s.len() as int) =~= Seq::<char>::empty());
    }
}

/// Cutting a subject into pieces loses nothing: the pieces, each written as
/// a literal and joined in their order, are the subject again.
pub proof fn pieces_join_to_the_subject(s: Seq<char>)
    ensures
        pieces_literal(segments(s)) == s,
{
    pieces_join_from(s, 0);
    assert(s.subrange(0, s.len() as int) =~= s);
}

/// Two texts never follow each other: behind a text piece stands a number.
pub proof fn texts_never_adjoin(s: Seq<char>, i: int)
    requires
        0 <= i,
        i + 1 < segments(s).len(),
        segments(s)[i] is Str,
    ensures
        segments(s)[i + 1] is Num,
{
    lemma_spans_from(s, 0);
    let spans = spans_from(s, 0);
    let text = spans[i];
    let next = spans[i + 1];
    assert(text == piece_at(s, text.start));
    assert(next == piece_at(s, next.start));
    assert(next.start == text.end);
    assert(!text.number);
    lemma_text_end(s, text.start + 1);
    assert(text.end == text_end(s, text.start + 1));
    assert(next.start < s.len());
}

proof fn count_grows(ps: Seq<PieceView>, i: int, j: int)
    requires
        0 <= i <= j <= ps.len(),
    ensures
        number_count(ps.take(i)) <= number_count(ps.take(j)),
    decreases j - i,
{
    if i < j {
        count_grows(ps, i, j - 1);
        assert(ps.take(j).drop_last() =~= ps.take(j - 1));
    }
}

/// The index `-1` names the last number: the operation multiplies the last
/// piece that is a number, and no other piece.
pub proof fn last_index_is_last_number(ps: Seq<PieceView>, a: ArgumentView)
    requires
        number_count(ps) > 0,
    ensures
        ({
            let op = OperationView {
                operation_type: OperationType::Mult(Some(-1isize)),
                argument: a,
            };
            let last = number_position(ps, number_count(ps) - 1);
            &&& 0 <= last < ps.len()
            &&& ps[last] is Num
            &&& forall|q: int| last < q < ps.len() ==> !(#[trigger] ps[q] is Num)
            &&& step(ps, op) == Outcome::Pieces(multiply_one(ps, last, argument_number(a)))
        }),
{
    let count = number_count(ps);
    lemma_number_position(ps, count - 1);
    let last = number_position(ps, count - 1);
    assert(ps.take(last + 1).drop_last() =~= ps.take(last));
    assert(number_count(ps.take(last + 1)) == count);
    assert forall|q: int| last < q < ps.len() implies !(#[trigger] ps[q] is Num) by {
        if ps[q] is Num {
            count_grows(ps, last + 1, q);
            assert(ps.take(q + 1).drop_last() =~= ps.take(q));
            count_grows(ps, q + 1, ps.len() as int);
            assert(ps.take(ps.len() as int) =~= ps);
        }
    }
    assert(resolved_index(Some(-1isize), count) == count - 1);
}

/// An index from the count of the numbers on names no number: the operation
/// fails, and the error reports the index and the count.
pub proof fn index_beyond_the_numbers_fails(ps: Seq<PieceView>, index: isize, a: ArgumentView)
    requires
        index >= number_count(ps),
    ensures
        step(ps, OperationView { operation_type: OperationType::Mult(Some(index)), argument: a })
            == Outcome::Error(
            EvalErrorView::IndexOutOfRange(index as usize, number_count(ps) as usize),
        ),
{
}

/// The outcome of two runs of operations, one after the other.
pub proof fn outcome_of_joined_operations(
    ps: Seq<PieceView>,
    first: Seq<OperationView>,
    second: Seq<OperationView>,
)
    ensures
        outcome(ps, first + second) == match outcome(ps, first) {
            Outcome::Pieces(next) => outcome(next, second),
            Outcome::Empty => Outcome::Empty,
            Outcome::Error(e) => Outcome::Error(e),
        },
    decreases first.len(),
{
    if first.len() == 0 {
        assert(first + second =~= second);
    } else {
        let all = first + second;
        assert(all[0] == first[0]);
        assert(all.drop_first() =~= first.drop_first() + second);
        match step(ps, first[0]) {
            Outcome::Pieces(next) => {
                outcome_of_joined_operations(next, first.drop_first(), second);
            },
            _ => {},
        }
    }
}

/// A duplication by zero makes the result empty, whatever stands before it
/// and behind it in the command, unless an operation before it fails.
pub proof fn duplicating_by_zero_empties(
    ps: Seq<PieceView>,
    before: Seq<OperationView>,
    after: Seq<OperationView>,
)
    requires
        !(outcome(ps, before) is Error),
    ensures
        run(
            ps,
            before + seq![
                OperationView {
                    operation_type: OperationType::Duplicate,
                    argument: ArgumentView::Integer(0),
                },
            ] + after,
        ) == Ok::<Seq<char>, EvalErrorView>(Seq::empty()),
{
    let zero = OperationView {
        operation_type: OperationType::Duplicate,
        argument: ArgumentView::Integer(0),
    };
    let tail = seq![zero] + after;
    assert(before + seq![zero] + after =~= before + tail);
    outcome_of_joined_operations(ps, before, tail);
    assert(tail[0] == zero);
}

/// A duplication by a negative count is the duplication by the positive
/// count of the subject turned round.
pub proof fn negative_count_turns_the_subject(
    ps: Seq<PieceView>,
    n: int,
    after: Seq<OperationView>,
)
    requires
        n > 0,
    ensures
        run(
            ps,
            seq![
                OperationView {
                    operation_type: OperationType::Duplicate,
                    argument: ArgumentView::Integer(-n),
                },
            ] + after,
        ) == run(
            turned(ps),
            seq![
                OperationView {
                    operation_type: OperationType::Duplicate,
                    argument: ArgumentView::Integer(n),
                },
            ] + after,
        ),
{
    let back = OperationView {
        operation_type: OperationType::Duplicate,
        argument: ArgumentView::Integer(-n),
    };
    let forth = OperationView {
        operation_type: OperationType::Duplicate,
        argument: ArgumentView::Integer(n),
    };
    let a = seq![back] + after;
    let b = seq![forth] + after;
    assert(a[0] == back);
    assert(b[0] == forth);
    assert(a.drop_first() =~= after);
    assert(b.drop_first() =~= after);
}

/// Every digit of `d` is a nine.
pub open spec fn all_nines(d: Seq<u8>) -> bool {
    forall|i: int| 0 <= i < d.len() ==> #[trigger] d[i] == 9
}

proof fn successor_behind_a_zero(d: Seq<u8>)
    requires
        all_digits(d),
    ensures
        successor(seq![0u8] + d) == if all_nines(d) {
            successor(d)
        } else {
            seq![0u8] + successor(d)
        },
        all_nines(d) ==> successor(d) == seq![1u8] + zeros(d.len()),
    decreases d.len(),
{
    let z = seq![0u8] + d;
    if d.len() == 0 {
        assert(z.drop_last() =~= Seq::<u8>::empty());
        assert(z.last() == 0);
        assert(successor(z) =~= seq![1u8]);
        assert(successor(d) =~= seq![1u8] + zeros(0));
    } else if d.last() < 9 {
        assert(z.last() == d.last());
        assert(!all_nines(d));
        assert(successor(z) =~= seq![0u8] + successor(d));
    } else {
        let init = d.drop_last();
        assert forall|i: int| 0 <= i < init.len() implies #[trigger] init[i] <= 9 by {
            assert(init[i] == d[i]);
        }
        successor_behind_a_zero(init);
        assert(d.last() <= 9);
        assert(z.last() == 9);
        assert(z.drop_last() =~= seq![0u8] + init);
        if all_nines(d) {
            assert forall|i: int| 0 <= i < init.len() implies #[trigger] init[i] == 9 by {
                assert(init[i] == d[i]);
            }
            assert(successor(d) =~= seq![1u8] + zeros(d.len()));
        } else {
            assert(!all_nines(init)) by {
                if all_nines(init) {
                    assert forall|i: int| 0 <= i < d.len() implies #[trigger] d[i] == 9 by {
                        if i < init.len() {
                            assert(d[i] == init[i]);
                        }
                    }
                }
            }
            assert(successor(z) =~= seq![0u8] + successor(d));
        }
    }
}

proof fn significant_behind_a_zero(d: Seq<u8>)
    requires
        d.len() > 0,
    ensures
        significant(seq![0u8] + d) == significant(d),
{
    let z = seq![0u8] + d;
    assert(z.drop_first() =~= d);
}

proof fn zero_in_front_shows_the_same(v: DecimalView)
    requires
        v.wf(),
    ensures
        number_text(DecimalView { digits: seq![0u8] + v.digits, ..v }) == number_text(v),
{
    let w = DecimalView { digits: seq![0u8] + v.digits, ..v };
    let f = fixed_digits(v);
    let g = fixed_digits(w);
    if v.scale <= PLACES {
        assert(g =~= seq![0u8] + f);
    } else {
        let cut = v.digits.len() - (v.scale - PLACES);
        let kept = v.digits.take(cut);
        let dropped = v.digits.skip(cut);
        assert(w.digits.take(cut + 1) =~= seq![0u8] + kept);
        assert(w.digits.skip(cut + 1) =~= dropped);
        assert((seq![0u8] + kept).last() == kept.last());
        assert(rounds_up(seq![0u8] + kept, dropped) == rounds_up(kept, dropped));
        assert forall|i: int| 0 <= i < kept.len() implies #[trigger] kept[i] <= 9 by {
            assert(kept[i] == v.digits[i]);
        }
        successor_behind_a_zero(kept);
    }
    if g == f {
    } else {
        assert(g == seq![0u8] + f);
        let cut = f.len() - PLACES;
        assert(all_digits(v.digits));
        if v.scale > PLACES {
            lemma_successor(v.digits.take(v.digits.len() - (v.scale - PLACES)));
        }
        assert(cut > 0);
        assert(g.take(cut + 1) =~= seq![0u8] + f.take(cut));
        assert(g.skip(cut + 1) =~= f.skip(cut));
        significant_behind_a_zero(f.take(cut));
        assert(fixed_text(w) == fixed_text(v));
    }
}

proof fn zeros_in_front_show_the_same(v: DecimalView, n: nat)
    requires
        v.wf(),
    ensures
        number_text(DecimalView { digits: zeros(n) + v.digits, ..v }) == number_text(v),
    decreases n,
{
    if n == 0 {
        assert(zeros(0) + v.digits =~= v.digits);
    } else {
        let inner = DecimalView { digits: zeros((n - 1) as nat) + v.digits, ..v };
        zeros_in_front_show_the_same(v, (n - 1) as nat);
        assert forall|i: int| 0 <= i < inner.digits.len() implies #[trigger] inner.digits[i]
            <= 9 by {
            if i >= n - 1 {
                assert(inner.digits[i] == v.digits[i - (n - 1)]);
            }
        }
        zero_in_front_shows_the_same(inner);
        assert(seq![0u8] + inner.digits =~= zeros(n) + v.digits);
    }
}

proof fn wider_writing_has_zeros_in_front(n: nat, wide: nat, narrow: nat)
    requires
        narrow <= wide,
        n < pow10(narrow),
    ensures
        digits_of(n, wide) == zeros((wide - narrow) as nat) + digits_of(n, narrow),
    decreases narrow,
{
    if narrow == 0 {
        zero_is_written_with_zeros(wide);
        assert(digits_of(n, 0) =~= Seq::<u8>::empty());
        assert(zeros(wide) + Seq::<u8>::empty() =~= zeros(wide));
    } else {
        wider_writing_has_zeros_in_front(n / 10, (wide - 1) as nat, (narrow - 1) as nat);
        assert(digits_of(n, wide) =~= zeros((wide - narrow) as nat) + digits_of(n, narrow));
    }
}

proof fn zero_is_written_with_zeros(width: nat)
    ensures
        digits_of(0, width) == zeros(width),
    decreases width,
{
    if width > 0 {
        zero_is_written_with_zeros((width - 1) as nat);
        assert(digits_of(0, width) =~= zeros(width));
    } else {
        assert(digits_of(0, width) =~= zeros(width));
    }
}

/// How a number is shown depends on the number alone, not on the zeros that
/// its digits begin with.
pub proof fn same_number_shows_the_same(a: DecimalView, b: DecimalView)
    requires
        a.wf(),
        b.wf(),
        a.same_number(b),
    ensures
        number_text(a) == number_text(b),
{
    lemma_digits_of_value(a.digits);
    lemma_digits_of_value(b.digits);
    lemma_value_bound(a.digits);
    lemma_value_bound(b.digits);
    let n = a.mantissa();
    if a.digits.len() >= b.digits.len() {
        wider_writing_has_zeros_in_front(n, a.digits.len(), b.digits.len());
        zeros_in_front_show_the_same(b, (a.digits.len() - b.digits.len()) as nat);
        assert(a == DecimalView {
            digits: zeros((a.digits.len() - b.digits.len()) as nat) + b.digits,
            ..b
        });
    } else {
        wider_writing_has_zeros_in_front(n, b.digits.len(), a.digits.len());
        zeros_in_front_show_the_same(a, (b.digits.len() - a.digits.len()) as nat);
        assert(b == DecimalView {
            digits: zeros((b.digits.len() - a.digits.len()) as nat) + a.digits,
            ..a
        });
    }
}

/// The product is a number again, and its mantissa is the product of the
/// mantissas.
pub proof fn product_is_exact(a: DecimalView, b: DecimalView)
    requires
        a.wf(),
        b.wf(),
    ensures
        product(a, b).wf(),
        product(a, b).mantissa() == a.mantissa() * b.mantissa(),
        product(a, b).scale == a.scale + b.scale,
        product(a, b).negative == (a.negative != b.negative),
{
    lemma_value_bound(a.digits);
    lemma_value_bound(b.digits);
    lemma_pow10_add(a.digits.len(), b.digits.len());
    let x = a.mantissa() as int;
    let y = b.mantissa() as int;
    let p = pow10(a.digits.len()) as int;
    let q = pow10(b.digits.len()) as int;
    assert(x * y < p * q) by (nonlinear_arith)
        requires
            0 <= x < p,
            0 <= y < q,
    ;
    assert(x * y >= 0) by (nonlinear_arith)
        requires
            0 <= x,
            0 <= y,
    ;
    lemma_digits_of((x * y) as nat, a.digits.len() + b.digits.len());
}

/// The argument is the number one, written without a fraction.
pub open spec fn is_one(a: ArgumentView) -> bool {
    let by = argument_number(a);
    by.wf() && !by.negative && by.scale == 0 && by.mantissa() == 1
}

/// The whole number one is the number one.
pub proof fn integer_one_is_one()
    ensures
        is_one(ArgumentView::Integer(1)),
{
    lemma_value_single(1u8);
    assert(integer_view(1).digits =~= seq![1u8]);
}

/// Every number among the pieces is well formed.
pub open spec fn numbers_wf(ps: Seq<PieceView>) -> bool {
    forall|i: int| 0 <= i < ps.len() ==> (#[trigger] ps[i] matches PieceView::Num(v) ==> v.wf())
}

/// Two sequences of pieces hold the same numbers and the same texts, place
/// by place.
pub open spec fn same_content(a: Seq<PieceView>, b: Seq<PieceView>) -> bool {
    &&& a.len() == b.len()
    &&& forall|i: int|
        0 <= i < a.len() ==> match (#[trigger] a[i], b[i]) {
            (PieceView::Num(v), PieceView::Num(w)) => v.wf() && w.wf() && v.same_number(w),
            (PieceView::Str(s), PieceView::Str(t)) => s == t,
            _ => false,
        }
}

/// Pieces with the same content are shown the same.
pub proof fn same_content_shows_the_same(a: Seq<PieceView>, b: Seq<PieceView>)
    requires
        same_content(a, b),
    ensures
        pieces_text(a) == pieces_text(b),
    decreases a.len(),
{
    if a.len() > 0 {
        let a0 = a.drop_last();
        let b0 = b.drop_last();
        assert forall|i: int| 0 <= i < a0.len() implies match (#[trigger] a0[i], b0[i]) {
            (PieceView::Num(v), PieceView::Num(w)) => v.wf() && w.wf() && v.same_number(w),
            (PieceView::Str(s), PieceView::Str(t)) => s == t,
            _ => false,
        } by {
            assert(a0[i] == a[i] && b0[i] == b[i]);
        }
        same_content_shows_the_same(a0, b0);
        let i = a.len() - 1;
        assert(a.last() == a[i] && b.last() == b[i]);
        match (a[i], b[i]) {
            (PieceView::Num(v), PieceView::Num(w)) => {
                same_number_shows_the_same(v, w);
            },
            _ => {},
        }
    }
}

proof fn times_one_is_the_same_number(v: DecimalView, by: DecimalView)
    requires
        v.wf(),
        by.wf(),
        !by.negative,
        by.scale == 0,
        by.mantissa() == 1,
    ensures
        product(v, by).wf(),
        product(v, by).same_number(v),
{
    product_is_exact(v, by);
    assert(v.mantissa() * 1 == v.mantissa());
}

/// Multiplying all numbers by one changes no number and no text: the pieces
/// hold the same content as before, and are shown the same.
pub proof fn multiplying_all_by_one_changes_nothing(ps: Seq<PieceView>, a: ArgumentView)
    requires
        numbers_wf(ps),
        is_one(a),
    ensures
        step(ps, OperationView { operation_type: OperationType::MultAll, argument: a })
            matches Outcome::Pieces(next) && same_content(next, ps) && pieces_text(next)
            == pieces_text(ps),
{
    let by = argument_number(a);
    let next = multiply_all(ps, by);
    assert forall|i: int| 0 <= i < next.len() implies match (#[trigger] next[i], ps[i]) {
        (PieceView::Num(v), PieceView::Num(w)) => v.wf() && w.wf() && v.same_number(w),
        (PieceView::Str(s), PieceView::Str(t)) => s == t,
        _ => false,
    } by {
        assert(next[i] == scaled(ps[i], by));
        match ps[i] {
            PieceView::Num(w) => {
                times_one_is_the_same_number(w, by);
            },
            _ => {},
        }
    }
    same_content_shows_the_same(next, ps);
}

/// Multiplying the first number by one changes no number and no text, where
/// there is a number at all.
pub proof fn multiplying_the_first_by_one_changes_nothing(ps: Seq<PieceView>, a: ArgumentView)
    requires
        numbers_wf(ps),
        is_one(a),
        number_count(ps) > 0,
    ensures
        step(ps, OperationView { operation_type: OperationType::Mult(Some(0isize)), argument: a })
            matches Outcome::Pieces(next) && same_content(next, ps) && pieces_text(next)
            == pieces_text(ps),
{
    let by = argument_number(a);
    lemma_number_position(ps, 0);
    let at = number_position(ps, 0);
    let next = multiply_one(ps, at, by);
    assert forall|i: int| 0 <= i < next.len() implies match (#[trigger] next[i], ps[i]) {
        (PieceView::Num(v), PieceView::Num(w)) => v.wf() && w.wf() && v.same_number(w),
        (PieceView::Str(s), PieceView::Str(t)) => s == t,
        _ => false,
    } by {
        if i == at {
            match ps[i] {
                PieceView::Num(w) => {
                    times_one_is_the_same_number(w, by);
                },
                _ => {},
            }
        } else {
            assert(next[i] == ps[i]);
        }
    }
    same_content_shows_the_same(next, ps);
}

/// The text `t`, `n` times over.
pub open spec fn text_repeated(t: Seq<char>, n: nat) -> Seq<char>
    decreases n,
{
    if n == 0 {
        Seq::empty()
    } else {
        text_repeated(t, (n - 1) as nat) + t
    }
}

/// Repeated pieces show the repeated text.
pub proof fn repeated_pieces_show_repeated_text(ps: Seq<PieceView>, n: nat)
    ensures
        pieces_text(repeated(ps, n)) == text_repeated(pieces_text(ps), n),
    decreases n,
{
    if n > 0 {
        repeated_pieces_show_repeated_text(ps, (n - 1) as nat);
        lemma_pieces_text_concat(repeated(ps, (n - 1) as nat), ps);
    }
}

proof fn repetition_commutes(t: Seq<char>, n: nat)
    ensures
        t + text_repeated(t, n) == text_repeated(t, n) + t,
    decreases n,
{
    if n == 0 {
        assert(t + text_repeated(t, n) =~= text_repeated(t, n) + t);
    } else {
        repetition_commutes(t, (n - 1) as nat);
        let r = text_repeated(t, (n - 1) as nat);
        assert(t + (r + t) =~= (t + r) + t);
    }
}

proof fn reversed_join(a: Seq<char>, b: Seq<char>)
    ensures
        (a + b).reverse() == b.reverse() + a.reverse(),
{
    assert((a + b).reverse() =~= b.reverse() + a.reverse());
}

/// A repeated text read backwards is the text read backwards, repeated.
pub proof fn reversed_repetition(t: Seq<char>, n: nat)
    ensures
        text_repeated(t, n).reverse() == text_repeated(t.reverse(), n),
    decreases n,
{
    if n == 0 {
        assert(text_repeated(t, n).reverse() =~= text_repeated(t.reverse(), n));
    } else {
        reversed_repetition(t, (n - 1) as nat);
        reversed_join(text_repeated(t, (n - 1) as nat), t);
        repetition_commutes(t.reverse(), (n - 1) as nat);
    }
}

/// The subject `s` is shown as it is written: cutting it into pieces and
/// showing them changes no number in it.
pub open spec fn shown_as_written(s: Seq<char>) -> bool {
    pieces_text(segments(s)) == s
}

/// The duplication by the count `n`.
pub open spec fn duplication(n: int) -> OperationView {
    OperationView { operation_type: OperationType::Duplicate, argument: ArgumentView::Integer(n) }
}

proof fn single_duplication(ps: Seq<PieceView>, n: int)
    requires
        n != 0,
    ensures
        run(ps, seq![duplication(n)]) == Ok::<Seq<char>, EvalErrorView>(
            if n > 0 {
                text_repeated(pieces_text(ps), n as nat)
            } else {
                text_repeated(pieces_text(turned(ps)), (-n) as nat)
            },
        ),
{
    let ops = seq![duplication(n)];
    assert(ops[0] == duplication(n));
    assert(ops.drop_first() =~= Seq::<OperationView>::empty());
    if n > 0 {
        repeated_pieces_show_repeated_text(ps, n as nat);
        assert(outcome(repeated(ps, n as nat), ops.drop_first()) == Outcome::Pieces(
            repeated(ps, n as nat),
        ));
    } else {
        repeated_pieces_show_repeated_text(turned(ps), (-n) as nat);
        assert(outcome(repeated(turned(ps), (-n) as nat), ops.drop_first()) == Outcome::Pieces(
            repeated(turned(ps), (-n) as nat),
        ));
    }
}

/// Duplicating a subject by a negative count gives what duplicating the
/// reversed subject by the positive count gives, where the subject is shown
/// as it is written.
pub proof fn negative_count_reads_the_subject_backwards(s: Seq<char>, n: int)
    requires
        n > 0,
        shown_as_written(s),
    ensures
        run(segments(s), seq![duplication(-n)]) == run(
            segments(s.reverse()),
            seq![duplication(n)],
        ),
{
    single_duplication(segments(s), -n);
    single_duplication(segments(s.reverse()), n);
}

/// Duplicating by a negative count gives the result of the positive count
/// read backwards, character by character and as a whole, where the subject
/// and the reversed subject are both shown as they are written.
pub proof fn negative_count_reverses_the_result(s: Seq<char>, n: int)
    requires
        n > 0,
        shown_as_written(s),
        shown_as_written(s.reverse()),
    ensures
        run(segments(s), seq![duplication(n)]) == Ok::<Seq<char>, EvalErrorView>(
            text_repeated(s, n as nat),
        ),
        run(segments(s), seq![duplication(-n)]) == Ok::<Seq<char>, EvalErrorView>(
            text_repeated(s, n as nat).reverse(),
        ),
{
    single_duplication(segments(s), n);
    single_duplication(segments(s), -n);
    reversed_repetition(s, n as nat);
}

/// Reading operations gives as many as stand there, and fails only where a
/// whole number does not fit.
pub proof fn operations_are_read_one_by_one(s: Seq<char>, ops: Seq<OperationSpan>)
    ensures
        operations_value(s, ops) matches Ok(read) ==> read.len() == ops.len(),
        operations_value(s, ops) matches Err(e) ==> e is ParseIntError,
    decreases ops.len(),
{
    if ops.len() > 0 {
        operations_are_read_one_by_one(s, ops.drop_last());
    }
}

/// A command that was read has at least one operation.
pub proof fn a_command_has_an_operation(s: Seq<char>)
    ensures
        command_of(s) matches Ok(c) ==> c.operations.len() > 0,
{
    let start = crate::syntax::blanks_end(s, 0);
    crate::syntax::lemma_blanks_end(s, 0);
    lemma_command_at(s, start);
    match command_at(s, start) {
        Some(c) => {
            operations_are_read_one_by_one(s, c.operations);
        },
        None => {},
    }
}

/// Reading a command fails in two ways only: the text is no command, and
/// the error holds the text; or a whole number in it does not fit.
pub proof fn reading_fails_in_two_ways(s: Seq<char>)
    ensures
        command_of(s) matches Err(e) ==> e == ParseErrorView::WrongCommand(s) || e
            is ParseIntError,
{
    let start = crate::syntax::blanks_end(s, 0);
    match command_at(s, start) {
        Some(c) => {
            operations_are_read_one_by_one(s, c.operations);
        },
        None => {},
    }
}

/// Operations fail in two ways only: an index names no number, or a
/// duplication has a count that is no whole number.
pub proof fn operations_fail_in_two_ways(ps: Seq<PieceView>, ops: Seq<OperationView>)
    ensures
        run(ps, ops) matches Err(e) ==> e is IndexOutOfRange || e is DuplicatingByFloat,
    decreases ops.len(),
{
    if ops.len() > 0 {
        match step(ps, ops[0]) {
            Outcome::Pieces(next) => {
                operations_fail_in_two_ways(next, ops.drop_first());
            },
            _ => {},
        }
    }
}

/// How far two whole numbers are apart.
pub open spec fn distance(x: int, y: int) -> int {
    if x <= y {
        y - x
    } else {
        x - y
    }
}

proof fn only_zeros_denote_zero(d: Seq<u8>)
    requires
        all_digits(d),
    ensures
        (digits_value(d) == 0) == all_zero(d),
    decreases d.len(),
{
    if d.len() > 0 {
        let init = d.drop_last();
        assert forall|i: int| 0 <= i < init.len() implies #[trigger] init[i] <= 9 by {
            assert(init[i] == d[i]);
        }
        only_zeros_denote_zero(init);
        if all_zero(d) {
            assert forall|i: int| 0 <= i < init.len() implies #[trigger] init[i] == 0 by {
                assert(init[i] == d[i]);
            }
            assert(d.last() == d[d.len() - 1]);
        }
        if digits_value(d) == 0 {
            assert forall|i: int| 0 <= i < d.len() implies #[trigger] d[i] == 0 by {
                if i < init.len() {
                    assert(d[i] == init[i]);
                }
            }
        }
    }
}

/// The places that a number is shown with are the nearest to the number:
/// padding changes nothing, and rounding moves the number by no more than
/// half of the last place, to the even digit where it moves by exactly half.
pub proof fn shown_places_are_the_nearest(v: DecimalView)
    requires
        v.wf(),
    ensures
        all_digits(fixed_digits(v)),
        v.scale <= PLACES ==> digits_value(fixed_digits(v)) == v.mantissa() * pow10(
            (PLACES - v.scale) as nat,
        ),
        v.scale > PLACES ==> ({
            let unit = pow10((v.scale - PLACES) as nat) as int;
            let shown = digits_value(fixed_digits(v)) * unit;
            &&& 2 * distance(shown, v.mantissa() as int) <= unit
            &&& 2 * distance(shown, v.mantissa() as int) == unit ==> digits_value(fixed_digits(v))
                % 2 == 0
        }),
{
    if v.scale <= PLACES {
        let pad = zeros((PLACES - v.scale) as nat);
        lemma_value_concat(v.digits, pad);
        lemma_value_zeros((PLACES - v.scale) as nat);
        assert forall|i: int| 0 <= i < (v.digits + pad).len() implies #[trigger] (v.digits
            + pad)[i] <= 9 by {
            if i < v.digits.len() {
                assert((v.digits + pad)[i] == v.digits[i]);
            }
        }
    } else {
        let k = (v.scale - PLACES) as nat;
        let cut = v.digits.len() - k;
        let kept = v.digits.take(cut);
        let dropped = v.digits.skip(cut);
        let rest = dropped.skip(1);
        assert(v.digits =~= kept + dropped);
        assert(dropped =~= seq![dropped[0]] + rest);
        assert forall|i: int| 0 <= i < kept.len() implies #[trigger] kept[i] <= 9 by {
            assert(kept[i] == v.digits[i]);
        }
        assert forall|i: int| 0 <= i < rest.len() implies #[trigger] rest[i] <= 9 by {
            assert(rest[i] == v.digits[cut + 1 + i]);
        }
        assert(dropped[0] == v.digits[cut]);
        lemma_value_concat(kept, dropped);
        lemma_value_concat(seq![dropped[0]], rest);
        lemma_value_single(dropped[0]);
        lemma_value_bound(rest);
        only_zeros_denote_zero(rest);
        lemma_successor(kept);
        lemma_pow10_positive((k - 1) as nat);
        let unit = pow10(k) as int;
        let tenth = pow10((k - 1) as nat) as int;
        assert(unit == 10 * tenth);
        let whole = digits_value(kept) as int;
        let first = dropped[0] as int;
        let tail = digits_value(rest) as int;
        let cut_off = digits_value(dropped) as int;
        let m = v.mantissa() as int;
        assert(cut_off == first * tenth + tail);
        assert(m == whole * unit + cut_off);
        assert(whole % 2 == (kept.last() as int) % 2) by {
            assert(whole == 10 * digits_value(kept.drop_last()) + kept.last());
        }
        let up = rounds_up(kept, dropped);
        let f = digits_value(fixed_digits(v)) as int;
        assert(f == if up {
            whole + 1
        } else {
            whole
        });
        if first > 5 {
            assert(first * tenth >= 6 * tenth) by (nonlinear_arith)
                requires
                    first >= 6,
                    tenth > 0,
            ;
            assert(first * tenth <= 9 * tenth) by (nonlinear_arith)
                requires
                    first <= 9,
                    tenth > 0,
            ;
        } else if first < 5 {
            assert(first * tenth <= 4 * tenth) by (nonlinear_arith)
                requires
                    0 <= first <= 4,
                    tenth > 0,
            ;
            assert(first * tenth >= 0) by (nonlinear_arith)
                requires
                    0 <= first,
                    tenth > 0,
            ;
        } else {
            assert(first * tenth == 5 * tenth);
        }
        assert((whole + 1) * unit == whole * unit + unit) by (nonlinear_arith);
    }
}

} // verus!
