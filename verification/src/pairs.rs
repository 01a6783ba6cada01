//! Matching a single rule of the grammar, and looking into what it matched.
//!
//! [`StringMultGrammar::parse`] matches one rule at the start of a text and
//! hands out the [`Pair`] of the rule and the text it took. A pair can be
//! asked for the pairs inside it: the integer in the index of a `mult`, the
//! pieces of a subject, the subject, operators and arguments of a command,
//! the items of a list.

use crate::grammar::{
    command_at, index_end, item_placed, item_spans, items_from, lemma_trial, line_end,
    operation_spans, operator_end, placed, scan_command, scan_items, scan_line, scan_operator,
    scan_subject, subject_end, CommandMatch, ItemMatch, ItemSpan, OperationSpan, Rule,
};
use crate::segment::{piece_spans, spans_from, spans_view, PieceSpan};
use crate::syntax::{integer_end, number_end, scan_integer, scan_number};
use crate::text::{chars_between, chars_of, string_of};
use vstd::prelude::*;

verus! {

/// The grammar of commands.
pub struct StringMultGrammar;

/// Where a rule has matched inside a text.
pub struct Inner {
    pub rule: Rule,
    pub start: int,
    pub end: int,
}

/// Where a rule has matched inside a text.
#[derive(Debug, PartialEq, Eq, Clone, Copy)]
pub struct InnerMatch {
    pub rule: Rule,
    pub start: usize,
    pub end: usize,
}

impl View for InnerMatch {
    type V = Inner;

    open spec fn view(&self) -> Inner {
        Inner { rule: self.rule, start: self.start as int, end: self.end as int }
    }
}

/// The views of the matches `ms`.
pub open spec fn inners_view(ms: Seq<InnerMatch>) -> Seq<Inner> {
    Seq::new(ms.len(), |i: int| ms[i]@)
}

/// What a [`Pair`] holds: a rule, the text that the rule took, and where in
/// the text that was parsed this text starts.
pub struct PairView {
    pub rule: Rule,
    pub text: Seq<char>,
    pub start: int,
}

/// A rule and the text that it took.
#[derive(Debug, PartialEq, Eq)]
pub struct Pair {
    rule: Rule,
    text: String,
    start: usize,
}

impl View for Pair {
    type V = PairView;

    closed spec fn view(&self) -> PairView {
        PairView { rule: self.rule, text: self.text@, start: self.start as int }
    }
}

/// The views of the pairs `ps`.
pub open spec fn pairs_view(ps: Seq<Pair>) -> Seq<PairView> {
    Seq::new(ps.len(), |i: int| ps[i]@)
}

/// The end of the text piece that starts at `at`: the first position from
/// `at` on where a `"` stands or a number starts, or the end of `s`.
pub open spec fn inner_text_end(s: Seq<char>, at: int) -> int
    decreases s.len() - at,
{
    if 0 <= at < s.len() && s[at] != '"' && number_end(s, at) is None {
        inner_text_end(s, at + 1)
    } else {
        at
    }
}

/// The end of what `rule` takes at the start of `s`, if it matches there.
pub open spec fn rule_end(rule: Rule, s: Seq<char>) -> Option<int> {
    match rule {
        Rule::num => number_end(s, 0),
        Rule::integer => integer_end(s, 0),
        Rule::mult => operator_end(rule, s, 0),
        Rule::multAll => operator_end(rule, s, 0),
        Rule::duplicate => operator_end(rule, s, 0),
        Rule::inner_str_text => if inner_text_end(s, 0) > 0 {
            Some(inner_text_end(s, 0))
        } else {
            None
        },
        Rule::str_param => subject_end(s, 0),
        Rule::command => match command_at(s, 0) {
            Some(c) => Some(c.end),
            None => None,
        },
        Rule::wrong_command => if line_end(s, 0) > 0 {
            Some(line_end(s, 0))
        } else {
            None
        },
        Rule::commands_list => if items_from(s, 0).len() > 0 {
            Some(items_from(s, 0).last().end())
        } else {
            None
        },
    }
}

/// The piece at `span` of a subject's content, seen from the subject.
pub open spec fn piece_inner(span: PieceSpan) -> Inner {
    Inner {
        rule: if span.number {
            Rule::num
        } else {
            Rule::inner_str_text
        },
        start: span.start + 1,
        end: span.end + 1,
    }
}

/// The operator of `op`.
pub open spec fn operator_inner(op: OperationSpan) -> Inner {
    Inner { rule: op.operator, start: op.start, end: op.operator_end }
}

/// The argument of `op`: an integer where a duplication has a whole number,
/// else a number.
pub open spec fn argument_inner(s: Seq<char>, op: OperationSpan) -> Inner {
    Inner {
        rule: if op.operator == Rule::duplicate && integer_end(s, op.argument) == Some(op.end) {
            Rule::integer
        } else {
            Rule::num
        },
        start: op.argument,
        end: op.end,
    }
}

/// The operators and arguments of `ops`, in the order of the text.
pub open spec fn operation_inners(s: Seq<char>, ops: Seq<OperationSpan>) -> Seq<Inner>
    decreases ops.len(),
{
    if ops.len() == 0 {
        Seq::empty()
    } else {
        operation_inners(s, ops.drop_last()) + seq![
            operator_inner(ops.last()),
            argument_inner(s, ops.last()),
        ]
    }
}

/// The item `item` of a list.
pub open spec fn item_inner(item: ItemSpan) -> Inner {
    Inner {
        rule: if item is Command {
            Rule::command
        } else {
            Rule::wrong_command
        },
        start: item.start(),
        end: item.end(),
    }
}

/// What stands inside the text `s` that `rule` took.
pub open spec fn inner_of(rule: Rule, s: Seq<char>) -> Seq<Inner> {
    match rule {
        Rule::mult => match index_end(s, 1) {
            Some(end) => seq![Inner { rule: Rule::integer, start: 2, end: end - 1 }],
            None => Seq::empty(),
        },
        Rule::str_param => match subject_end(s, 0) {
            Some(end) => {
                let spans = spans_from(s.subrange(1, end - 1), 0);
                Seq::new(spans.len(), |i: int| piece_inner(spans[i]))
            },
            None => Seq::empty(),
        },
        Rule::command => match command_at(s, 0) {
            Some(c) => seq![Inner { rule: Rule::str_param, start: 0, end: c.subject_end }]
                + operation_inners(s, c.operations),
            None => Seq::empty(),
        },
        Rule::commands_list => {
            let items = items_from(s, 0);
            Seq::new(items.len(), |i: int| item_inner(items[i]))
        },
        _ => Seq::empty(),
    }
}

/// The pair that stands at `inner` in the text of the pair `outer`.
pub open spec fn pair_at(outer: PairView, inner: Inner) -> PairView {
    PairView {
        rule: inner.rule,
        text: outer.text.subrange(inner.start, inner.end),
        start: outer.start + inner.start,
    }
}

/// The pairs inside the pair `outer`.
pub open spec fn pairs_inside(outer: PairView) -> Seq<PairView> {
    let inners = inner_of(outer.rule, outer.text);
    Seq::new(inners.len(), |i: int| pair_at(outer, inners[i]))
}

proof fn lemma_inner_text_end_is(s: Seq<char>, at: int, end: int)
    requires
        0 <= at <= end <= s.len(),
        forall|i: int| at <= i < end ==> #[trigger] s[i] != '"' && number_end(s, i) is None,
        end < s.len() ==> s[end] == '"' || number_end(s, end) is Some,
    ensures
        inner_text_end(s, at) == end,
    decreases end - at,
{
    if at < end {
        lemma_inner_text_end_is(s, at + 1, end);
    }
}

/// Matches `rule` at the start of `chars`.
fn scan_rule(rule: Rule, chars: &[char]) -> (end: Option<usize>)
    ensures
        end is Some <==> rule_end(rule, chars@) is Some,
        end matches Some(e) ==> rule_end(rule, chars@) == Some(e as int) && e <= chars.len(),
{
    match rule {
        Rule::num => scan_number(chars, 0),
        Rule::integer => scan_integer(chars, 0),
        Rule::mult => scan_operator(rule, chars, 0),
        Rule::multAll => scan_operator(rule, chars, 0),
        Rule::duplicate => scan_operator(rule, chars, 0),
        Rule::inner_str_text => {
            let mut i: usize = 0;
            while i < chars.len() && chars[i] != '"' && scan_number(chars, i).is_none()
                invariant
                    i <= chars.len(),
                    forall|k: int|
                        0 <= k < i ==> #[trigger] chars@[k] != '"' && number_end(chars@, k) is None,
                decreases chars.len() - i,
            {
                i += 1;
            }
            proof {
                lemma_inner_text_end_is(chars@, 0, i as int);
            }
            if i > 0 {
                Some(i)
            } else {
                None
            }
        },
        Rule::str_param => scan_subject(chars, 0),
        Rule::command => match scan_command(chars, 0) {
            Some(m) => Some(m.end),
            None => None,
        },
        Rule::wrong_command => {
            let end = scan_line(chars, 0);
            if end > 0 {
                Some(end)
            } else {
                None
            }
        },
        Rule::commands_list => {
            let items = scan_items(chars);
            if items.len() > 0 {
                let ghost spans = items_from(chars@, 0);
                assert(spans.last() == items@.last()@);
                assert(item_placed(chars@, items@.last()@));
                match &items[items.len() - 1] {
                    ItemMatch::Command(m) => Some(m.end),
                    ItemMatch::Wrong { start, end } => Some(*end),
                }
            } else {
                None
            }
        },
    }
}

/// Every inner part lies within the text.
pub open spec fn inners_within(inners: Seq<Inner>, len: int) -> bool {
    forall|i: int|
        0 <= i < inners.len() ==> 0 <= (#[trigger] inners[i]).start <= inners[i].end <= len
}

/// The operators and arguments of a command's operations.
fn scan_operation_inners(chars: &[char], m: &CommandMatch, out: &mut Vec<InnerMatch>)
    requires
        forall|i: int|
            0 <= i < m.operations@.len() ==> placed(chars@, (#[trigger] m.operations@[i])@),
        inners_within(inners_view(old(out)@), chars.len() as int),
    ensures
        inners_view(final(out)@) == inners_view(old(out)@) + operation_inners(
            chars@,
            operation_spans(m.operations@),
        ),
        inners_within(inners_view(final(out)@), chars.len() as int),
{
    let ghost before = inners_view(out@);
    let ghost spans = operation_spans(m.operations@);
    let mut i: usize = 0;
    assert(spans.take(0) =~= Seq::<OperationSpan>::empty());
    assert(inners_view(out@) =~= before + operation_inners(chars@, spans.take(0)));
    while i < m.operations.len()
        invariant
            i <= m.operations.len(),
            spans == operation_spans(m.operations@),
            forall|k: int|
                0 <= k < m.operations@.len() ==> placed(chars@, (#[trigger] m.operations@[k])@),
            inners_view(out@) == before + operation_inners(chars@, spans.take(i as int)),
            inners_within(inners_view(out@), chars.len() as int),
        decreases m.operations.len() - i,
    {
        let op = m.operations[i];
        proof {
            lemma_trial(op.operator, chars@, op.start as int);
            let next = spans.take(i + 1);
            assert(next.drop_last() =~= spans.take(i as int));
            assert(next.last() == op@);
        }
        let whole = match op.operator {
            Rule::duplicate => match scan_integer(chars, op.argument) {
                Some(end) => end == op.end,
                None => false,
            },
            _ => false,
        };
        let ghost so_far = inners_view(out@);
        let operator = InnerMatch { rule: op.operator, start: op.start, end: op.operator_end };
        let argument = InnerMatch {
            rule: if whole {
                Rule::integer
            } else {
                Rule::num
            },
            start: op.argument,
            end: op.end,
        };
        out.push(operator);
        out.push(argument);
        proof {
            assert(inners_view(out@) =~= so_far + seq![operator@, argument@]);
            assert(so_far + seq![operator@, argument@] =~= before + operation_inners(
                chars@,
                spans.take(i + 1),
            ));
            assert forall|k: int| 0 <= k < inners_view(out@).len() implies 0 <= (
            #[trigger] inners_view(out@)[k]).start <= inners_view(out@)[k].end
                <= chars.len() by {
                if k < so_far.len() {
                    assert(inners_view(out@)[k] == so_far[k]);
                }
            }
        }
        i += 1;
    }
    assert(spans.take(m.operations.len() as int) =~= spans);
}

/// Finds what stands inside the text `chars` that `rule` took.
fn scan_inner(rule: Rule, chars: &[char]) -> (inners: Vec<InnerMatch>)
    ensures
        inners_view(inners@) == inner_of(rule, chars@),
        inners_within(inners_view(inners@), chars.len() as int),
{
    let mut inners: Vec<InnerMatch> = Vec::new();
    match rule {
        Rule::mult => {
            if 1 < chars.len() && chars[1] == '[' {
                match scan_integer(chars, 2) {
                    Some(end) => {
                        if end < chars.len() && chars[end] == ']' {
                            inners.push(InnerMatch { rule: Rule::integer, start: 2, end });
                        }
                    },
                    None => {},
                }
            }
            assert(inners_view(inners@) =~= inner_of(rule, chars@));
        },
        Rule::str_param => {
            match scan_subject(chars, 0) {
                Some(end) => {
                    let content = chars_between(chars, 1, end - 1);
                    let spans = piece_spans(&content);
                    let mut i: usize = 0;
                    while i < spans.len()
                        invariant
                            i <= spans.len(),
                            end <= chars.len(),
                            content@.len() == end - 2,
                            forall|k: int|
                                0 <= k < spans@.len() ==> (#[trigger] spans@[k]).start
                                    < spans@[k].end <= content.len(),
                            inners@.len() == i,
                            forall|k: int|
                                0 <= k < i ==> (#[trigger] inners@[k])@ == piece_inner(
                                    spans@[k]@,
                                ),
                        decreases spans.len() - i,
                    {
                        let span = spans[i];
                        inners.push(
                            InnerMatch {
                                rule: if span.number {
                                    Rule::num
                                } else {
                                    Rule::inner_str_text
                                },
                                start: span.start + 1,
                                end: span.end + 1,
                            },
                        );
                        i += 1;
                    }
                    proof {
                        let views = spans_view(spans@);
                        assert forall|k: int| 0 <= k < inners@.len() implies inners_view(
                            inners@,
                        )[k] == piece_inner(views[k]) by {
                            assert(views[k] == spans@[k]@);
                        }
                        assert(inners_view(inners@) =~= inner_of(rule, chars@));
                    }
                },
                None => {
                    assert(inners_view(inners@) =~= inner_of(rule, chars@));
                },
            }
        },
        Rule::command => {
            match scan_command(chars, 0) {
                Some(m) => {
                    inners.push(InnerMatch { rule: Rule::str_param, start: 0, end: m.subject_end });
                    assert(inners_view(inners@) =~= seq![
                        Inner { rule: Rule::str_param, start: 0, end: m.subject_end as int },
                    ]);
                    scan_operation_inners(chars, &m, &mut inners);
                },
                None => {
                    assert(inners_view(inners@) =~= inner_of(rule, chars@));
                },
            }
        },
        Rule::commands_list => {
            let items = scan_items(chars);
            let mut i: usize = 0;
            while i < items.len()
                invariant
                    i <= items.len(),
                    forall|k: int|
                        0 <= k < items@.len() ==> item_placed(chars@, (#[trigger] items@[k])@),
                    inners@.len() == i,
                    forall|k: int|
                        0 <= k < i ==> (#[trigger] inners@[k])@ == item_inner(items@[k]@),
                decreases items.len() - i,
            {
                assert(item_placed(chars@, items@[i as int]@));
                let inner = match &items[i] {
                    ItemMatch::Command(m) => InnerMatch {
                        rule: Rule::command,
                        start: m.start,
                        end: m.end,
                    },
                    ItemMatch::Wrong { start, end } => InnerMatch {
                        rule: Rule::wrong_command,
                        start: *start,
                        end: *end,
                    },
                };
                inners.push(inner);
                i += 1;
            }
            proof {
                let spans = item_spans(items@);
                assert forall|k: int| 0 <= k < inners@.len() implies inners_view(inners@)[k]
                    == item_inner(spans[k]) by {
                    assert(spans[k] == items@[k]@);
                }
                assert(inners_view(inners@) =~= inner_of(rule, chars@));
                assert forall|k: int| 0 <= k < inners@.len() implies 0 <= (#[trigger] inners_view(
                    inners@,
                )[k]).start <= inners_view(inners@)[k].end <= chars.len() by {
                    assert(item_placed(chars@, items@[k]@));
                }
            }
        },
        _ => {
            assert(inners_view(inners@) =~= inner_of(rule, chars@));
        },
    }
    inners
}

impl StringMultGrammar {
    /// Matches `rule` at the start of `input`: the pair of the rule and the
    /// text it took, or `None` where the rule does not match there. What
    /// follows the match is not looked at.
    pub fn parse(rule: Rule, input: &str) -> (r: Option<Pair>)
        ensures
            r is Some <==> rule_end(rule, input@) is Some,
            r matches Some(pair) ==> pair@ == (PairView {
                rule,
                text: input@.take(rule_end(rule, input@)->0),
                start: 0,
            }),
    {
        let chars = chars_of(input);
        match scan_rule(rule, &chars) {
            Some(end) => {
                let text = string_of(&chars, 0, end);
                assert(chars@.subrange(0, end as int) =~= chars@.take(end as int));
                Some(Pair { rule, text, start: 0 })
            },
            None => None,
        }
    }
}

impl Pair {
    /// A pair ends within the text that was parsed.
    #[verifier::type_invariant]
    pub closed spec fn inv(self) -> bool {
        self.start + self.text@.len() <= usize::MAX
    }

    /// The rule that matched.
    pub fn as_rule(&self) -> (rule: Rule)
        ensures
            rule == self@.rule,
    {
        self.rule
    }

    /// The text that the rule took.
    pub fn as_str(&self) -> (text: &str)
        ensures
            text@ == self@.text,
    {
        self.text.as_str()
    }

    /// Where the text of this pair starts in the text that was parsed,
    /// counted in characters.
    pub fn start(&self) -> (start: usize)
        ensures
            start == self@.start,
    {
        self.start
    }

    /// Where the text of this pair ends in the text that was parsed, counted
    /// in characters.
    pub fn end(&self) -> (end: usize)
        ensures
            end == self@.start + self@.text.len(),
    {
        proof {
            use_type_invariant(self);
        }
        let chars = chars_of(self.text.as_str());
        self.start + chars.len()
    }

    /// The pairs inside this pair, in the order of the text.
    pub fn into_inner(self) -> (inner: Vec<Pair>)
        ensures
            pairs_view(inner@) == pairs_inside(self@),
    {
        proof {
            use_type_invariant(&self);
        }
        let chars = chars_of(self.text.as_str());
        let inners = scan_inner(self.rule, &chars);
        let ghost spans = inners_view(inners@);
        let mut pairs: Vec<Pair> = Vec::new();
        let mut i: usize = 0;
        while i < inners.len()
            invariant
                i <= inners.len(),
                chars@ == self@.text,
                self.start + chars@.len() <= usize::MAX,
                self.start == self@.start,
                spans == inners_view(inners@),
                inners_within(spans, chars.len() as int),
                pairs@.len() == i,
                forall|k: int| 0 <= k < i ==> (#[trigger] pairs@[k])@ == pair_at(self@, spans[k]),
            decreases inners.len() - i,
        {
            let inner = inners[i];
            assert(spans[i as int] == inner@);
            let text = string_of(&chars, inner.start, inner.end);
            pairs.push(Pair { rule: inner.rule, text, start: self.start + inner.start });
            i += 1;
        }
        assert(pairs_view(pairs@) =~= pairs_inside(self@));
        pairs
    }
}

impl Clone for Pair {
    fn clone(&self) -> (r: Pair)
        ensures
            r@ == self@,
    {
        proof {
            use_type_invariant(self);
        }
        Pair { rule: self.rule, text: self.text.clone(), start: self.start }
    }
}

} // verus!
