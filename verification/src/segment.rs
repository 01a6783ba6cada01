//! Cutting the content of a subject into pieces.
//!
//! The content is read from left to right. Where a number starts, the whole
//! number becomes a piece; every other character joins the text piece that
//! runs up to the next number. Nothing is skipped and nothing is merged: two
//! numbers may follow each other, two texts never do.

use crate::command::{pieces_view, ParamsPiece, PieceView};
use crate::decimal::{number_view, Decimal};
use crate::syntax::{lemma_number_end, number_end, scan_number};
use crate::text::string_of;
use vstd::prelude::*;

verus! {

/// Where a piece stands in the content, and whether it is a number.
pub struct PieceSpan {
    pub number: bool,
    pub start: int,
    pub end: int,
}

/// Where a piece stands in the content, and whether it is a number.
#[derive(Debug, PartialEq, Eq, Clone, Copy)]
pub struct PieceMatch {
    pub number: bool,
    pub start: usize,
    pub end: usize,
}

impl View for PieceMatch {
    type V = PieceSpan;

    open spec fn view(&self) -> PieceSpan {
        PieceSpan { number: self.number, start: self.start as int, end: self.end as int }
    }
}

/// The views of the matches `ms`.
pub open spec fn spans_view(ms: Seq<PieceMatch>) -> Seq<PieceSpan> {
    Seq::new(ms.len(), |i: int| ms[i]@)
}

/// The end of a text that runs up to `at` at least: the first position from
/// `at` on where a number starts, or the end of `s`.
pub open spec fn text_end(s: Seq<char>, at: int) -> int
    decreases s.len() - at,
{
    if 0 <= at < s.len() && number_end(s, at) is None {
        text_end(s, at + 1)
    } else {
        at
    }
}

/// The piece that starts at `at`.
pub open spec fn piece_at(s: Seq<char>, at: int) -> PieceSpan {
    match number_end(s, at) {
        Some(end) => PieceSpan { number: true, start: at, end },
        None => PieceSpan { number: false, start: at, end: text_end(s, at + 1) },
    }
}

/// Where the pieces of `s` stand from `at` on.
pub open spec fn spans_from(s: Seq<char>, at: int) -> Seq<PieceSpan>
    decreases s.len() - at,
{
    if 0 <= at < s.len() {
        proof {
            lemma_piece_at(s, at);
        }
        seq![piece_at(s, at)] + spans_from(s, piece_at(s, at).end)
    } else {
        Seq::empty()
    }
}

/// The piece that stands at `span`.
pub open spec fn piece_of(s: Seq<char>, span: PieceSpan) -> PieceView {
    if span.number {
        PieceView::Num(number_view(s.subrange(span.start, span.end)))
    } else {
        PieceView::Str(s.subrange(span.start, span.end))
    }
}

/// The pieces that stand at `spans`.
pub open spec fn pieces_of(s: Seq<char>, spans: Seq<PieceSpan>) -> Seq<PieceView> {
    Seq::new(spans.len(), |i: int| piece_of(s, spans[i]))
}

/// The pieces of the subject content `s`.
pub open spec fn segments(s: Seq<char>) -> Seq<PieceView> {
    pieces_of(s, spans_from(s, 0))
}

/// No number starts inside a text, and one starts where the text ends
/// before the end of the content.
pub proof fn lemma_text_end(s: Seq<char>, at: int)
    requires
        0 <= at <= s.len(),
    ensures
        at <= text_end(s, at) <= s.len(),
        forall|i: int| at <= i < text_end(s, at) ==> (#[trigger] number_end(s, i)) is None,
        text_end(s, at) < s.len() ==> number_end(s, text_end(s, at)) is Some,
    decreases s.len() - at,
{
    if at < s.len() && number_end(s, at) is None {
        lemma_text_end(s, at + 1);
    }
}

/// A run without a number start that stops at `end` is the text from `at`.
pub proof fn lemma_text_end_is(s: Seq<char>, at: int, end: int)
    requires
        0 <= at <= end <= s.len(),
        forall|i: int| at <= i < end ==> (#[trigger] number_end(s, i)) is None,
        end < s.len() ==> number_end(s, end) is Some,
    ensures
        text_end(s, at) == end,
    decreases end - at,
{
    if at < end {
        lemma_text_end_is(s, at + 1, end);
    }
}

/// A piece is not empty and ends within the content.
pub proof fn lemma_piece_at(s: Seq<char>, at: int)
    requires
        0 <= at < s.len(),
    ensures
        at < piece_at(s, at).end <= s.len(),
        piece_at(s, at).start == at,
{
    lemma_number_end(s, at);
    lemma_text_end(s, at + 1);
}

/// The pieces follow each other without a gap, from `at` to the end.
pub proof fn lemma_spans_from(s: Seq<char>, at: int)
    requires
        0 <= at <= s.len(),
    ensures
        forall|i: int|
            0 <= i < spans_from(s, at).len() ==> at <= (#[trigger] spans_from(s, at)[i]).start
                < spans_from(s, at)[i].end <= s.len(),
        forall|i: int|
            0 <= i < spans_from(s, at).len() ==> #[trigger] spans_from(s, at)[i] == piece_at(
                s,
                spans_from(s, at)[i].start,
            ),
        forall|i: int|
            0 < i < spans_from(s, at).len() ==> (#[trigger] spans_from(s, at)[i]).start
                == spans_from(s, at)[i - 1].end,
        at < s.len() ==> spans_from(s, at).len() > 0 && spans_from(s, at)[0].start == at
            && spans_from(s, at).last().end == s.len(),
        at == s.len() ==> spans_from(s, at).len() == 0,
    decreases s.len() - at,
{
    if at < s.len() {
        lemma_piece_at(s, at);
        let first = piece_at(s, at);
        let rest = spans_from(s, first.end);
        lemma_spans_from(s, first.end);
        let all = spans_from(s, at);
        assert(all == seq![first] + rest);
        assert forall|i: int| 0 <= i < all.len() implies at <= (#[trigger] all[i]).start
            < all[i].end <= s.len() && all[i] == piece_at(s, all[i].start) by {
            if i > 0 {
                assert(all[i] == rest[i - 1]);
            }
        }
        assert forall|i: int| 0 < i < all.len() implies (#[trigger] all[i]).start == all[i
            - 1].end by {
            assert(all[i] == rest[i - 1]);
            if i > 1 {
                assert(all[i - 1] == rest[i - 2]);
            }
        }
        if rest.len() > 0 {
            assert(all.last() == rest.last());
        }
    }
}

/// Finds where the pieces of `content` stand.
pub fn piece_spans(content: &[char]) -> (spans: Vec<PieceMatch>)
    ensures
        spans_view(spans@) == spans_from(content@, 0),
        forall|i: int|
            0 <= i < spans@.len() ==> (#[trigger] spans@[i]).start < spans@[i].end
                <= content.len(),
        forall|i: int|
            0 <= i < spans@.len() && spans@[i].number ==> number_end(
                content@,
                (#[trigger] spans@[i]).start as int,
            ) == Some(spans@[i].end as int),
{
    let mut spans: Vec<PieceMatch> = Vec::new();
    let mut at: usize = 0;
    assert(spans_view(spans@) + spans_from(content@, 0) =~= spans_from(content@, 0));
    while at < content.len()
        invariant
            at <= content.len(),
            spans_view(spans@) + spans_from(content@, at as int) == spans_from(content@, 0),
            forall|i: int|
                0 <= i < spans@.len() ==> (#[trigger] spans@[i]).start < spans@[i].end
                    <= content.len(),
            forall|i: int|
                0 <= i < spans@.len() && spans@[i].number ==> number_end(
                    content@,
                    (#[trigger] spans@[i]).start as int,
                ) == Some(spans@[i].end as int),
        decreases content.len() - at,
    {
        let ghost before = spans_view(spans@);
        let ghost rest = spans_from(content@, at as int);
        let found = match scan_number(content, at) {
            Some(end) => PieceMatch { number: true, start: at, end },
            None => {
                let mut end: usize = at + 1;
                while end < content.len() && scan_number(content, end).is_none()
                    invariant
                        at < end <= content.len(),
                        forall|i: int|
                            at + 1 <= i < end ==> (#[trigger] number_end(content@, i)) is None,
                    decreases content.len() - end,
                {
                    end += 1;
                }
                proof {
                    lemma_text_end_is(content@, at + 1, end as int);
                }
                PieceMatch { number: false, start: at, end }
            },
        };
        spans.push(found);
        proof {
            lemma_piece_at(content@, at as int);
            assert(found@ == piece_at(content@, at as int));
            assert(rest == seq![found@] + spans_from(content@, found.end as int));
            assert(spans_view(spans@) =~= before.push(found@));
            assert(before.push(found@) + spans_from(content@, found.end as int) =~= before + rest);
        }
        at = found.end;
    }
    assert(spans_from(content@, at as int) =~= Seq::<PieceSpan>::empty());
    assert(spans_view(spans@) + Seq::<PieceSpan>::empty() =~= spans_view(spans@));
    spans
}

/// Cuts `content` into its pieces.
pub fn segment(content: &[char]) -> (pieces: Vec<ParamsPiece>)
    ensures
        pieces_view(pieces@) == segments(content@),
{
    let spans = piece_spans(content);
    let mut pieces: Vec<ParamsPiece> = Vec::new();
    let mut i: usize = 0;
    while i < spans.len()
        invariant
            i <= spans.len(),
            spans_view(spans@) == spans_from(content@, 0),
            forall|k: int|
                0 <= k < spans@.len() ==> (#[trigger] spans@[k]).start < spans@[k].end
                    <= content.len(),
            forall|k: int|
                0 <= k < spans@.len() && spans@[k].number ==> number_end(
                    content@,
                    (#[trigger] spans@[k]).start as int,
                ) == Some(spans@[k].end as int),
            pieces@.len() == i,
            forall|k: int|
                0 <= k < i ==> (#[trigger] pieces@[k])@ == piece_of(content@, spans@[k]@),
        decreases spans.len() - i,
    {
        let span = spans[i];
        let piece = if span.number {
            ParamsPiece::Num(Decimal::from_token(content, span.start, span.end))
        } else {
            ParamsPiece::Str(string_of(content, span.start, span.end))
        };
        pieces.push(piece);
        i += 1;
    }
    proof {
        let views = spans_view(spans@);
        assert forall|k: int| 0 <= k < pieces@.len() implies pieces_view(pieces@)[k] == pieces_of(
            content@,
            views,
        )[k] by {
            assert(views[k] == spans@[k]@);
        }
        assert(pieces_view(pieces@) =~= segments(content@));
    }
    pieces
}

} // verus!
