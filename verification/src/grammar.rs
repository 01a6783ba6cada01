//! The grammar of commands.
//!
//! ```text
//! commands_list := item+                   items parted by blanks and line breaks
//! item          := command | wrong_command
//! command       := str_param (blank* operation)+
//! str_param     := '"' content '"'         the content holds no '"'
//! operation     := mult blank* num
//!                | multAll blank* num
//!                | duplicate blank* num
//! mult          := '*' ('[' integer ']')?
//! multAll       := '**'
//! duplicate     := '***'
//! wrong_command := the rest of the line
//! ```
//!
//! The three forms of an operation are tried in this order, each from the
//! same position. A bracket behind `*` belongs to the operator only if it
//! holds an integer and nothing else. Every rule takes as much as it can, and
//! what a rule has taken is never given back.

use crate::syntax::{
    blanks_end, integer_end, is_blank, is_blank_char, is_line_break, is_line_break_char,
    lemma_blanks_end, lemma_number_end, number_end, scan_blanks, scan_integer, scan_number,
};
use vstd::prelude::*;

verus! {

/// The rules of the grammar.
#[allow(non_camel_case_types)]
#[derive(Debug, PartialEq, Eq, Clone, Copy, Structural)]
pub enum Rule {
    /// A number: an integer, or an integer with a fraction.
    num,
    /// An integer.
    integer,
    /// The operator that multiplies one number: `*`, with or without an index.
    mult,
    /// The operator that multiplies all numbers: `**`.
    multAll,
    /// The operator that duplicates the subject: `***`.
    duplicate,
    /// A text piece of a subject.
    inner_str_text,
    /// A subject in its quotes.
    str_param,
    /// A command.
    command,
    /// What stands on a line where a command should.
    wrong_command,
    /// A list of commands.
    commands_list,
}

/// Whether a star stands at `at`.
pub open spec fn star_at(s: Seq<char>, at: int) -> bool {
    0 <= at < s.len() && s[at] == '*'
}

/// The end of the index `[integer]` that starts at `at`, if one starts there.
pub open spec fn index_end(s: Seq<char>, at: int) -> Option<int> {
    if 0 <= at < s.len() && s[at] == '[' {
        match integer_end(s, at + 1) {
            Some(end) => if end < s.len() && s[end] == ']' {
                Some(end + 1)
            } else {
                None
            },
            None => None,
        }
    } else {
        None
    }
}

/// The end of the operator `mult` at `at`: behind its index, if it has one.
pub open spec fn mult_end(s: Seq<char>, at: int) -> Option<int> {
    if star_at(s, at) {
        match index_end(s, at + 1) {
            Some(end) => Some(end),
            None => Some(at + 1),
        }
    } else {
        None
    }
}

/// The end of the operator `multAll` at `at`.
pub open spec fn mult_all_end(s: Seq<char>, at: int) -> Option<int> {
    if star_at(s, at) && star_at(s, at + 1) {
        Some(at + 2)
    } else {
        None
    }
}

/// The end of the operator `duplicate` at `at`.
pub open spec fn duplicate_end(s: Seq<char>, at: int) -> Option<int> {
    if star_at(s, at) && star_at(s, at + 1) && star_at(s, at + 2) {
        Some(at + 3)
    } else {
        None
    }
}

/// The end of the operator `rule` at `at`.
pub open spec fn operator_end(rule: Rule, s: Seq<char>, at: int) -> Option<int> {
    match rule {
        Rule::mult => mult_end(s, at),
        Rule::multAll => mult_all_end(s, at),
        Rule::duplicate => duplicate_end(s, at),
        _ => None,
    }
}

/// Where an operation stands: its operator from `start` to `operator_end`,
/// its argument from `argument` to `end`.
pub struct OperationSpan {
    pub operator: Rule,
    pub start: int,
    pub operator_end: int,
    pub argument: int,
    pub end: int,
}

/// Where an operation stands.
#[derive(Debug, PartialEq, Eq, Clone, Copy)]
pub struct OperationMatch {
    pub operator: Rule,
    pub start: usize,
    pub operator_end: usize,
    pub argument: usize,
    pub end: usize,
}

impl View for OperationMatch {
    type V = OperationSpan;

    open spec fn view(&self) -> OperationSpan {
        OperationSpan {
            operator: self.operator,
            start: self.start as int,
            operator_end: self.operator_end as int,
            argument: self.argument as int,
            end: self.end as int,
        }
    }
}

/// The views of the matches `ms`.
pub open spec fn operation_spans(ms: Seq<OperationMatch>) -> Seq<OperationSpan> {
    Seq::new(ms.len(), |i: int| ms[i]@)
}

/// The operation at `at` in the form of the operator `rule`: the operator,
/// blanks, and a number.
pub open spec fn trial(rule: Rule, s: Seq<char>, at: int) -> Option<OperationSpan> {
    match operator_end(rule, s, at) {
        Some(operator_end) => {
            let argument = blanks_end(s, operator_end);
            match number_end(s, argument) {
                Some(end) => Some(
                    OperationSpan { operator: rule, start: at, operator_end, argument, end },
                ),
                None => None,
            }
        },
        None => None,
    }
}

/// The operation at `at`: the first of the three forms that is there.
pub open spec fn operation_at(s: Seq<char>, at: int) -> Option<OperationSpan> {
    if trial(Rule::mult, s, at) is Some {
        trial(Rule::mult, s, at)
    } else if trial(Rule::multAll, s, at) is Some {
        trial(Rule::multAll, s, at)
    } else {
        trial(Rule::duplicate, s, at)
    }
}

/// The operations that follow each other from `at` on, blanks before each.
pub open spec fn operations_from(s: Seq<char>, at: int) -> Seq<OperationSpan>
    decreases s.len() - at,
{
    if 0 <= at <= s.len() {
        match operation_at(s, blanks_end(s, at)) {
            Some(op) => {
                proof {
                    lemma_blanks_end(s, at);
                    lemma_operation_at(s, blanks_end(s, at));
                }
                seq![op] + operations_from(s, op.end)
            },
            None => Seq::empty(),
        }
    } else {
        Seq::empty()
    }
}

/// The first `"` from `at` on, or the end of `s`.
pub open spec fn quote_from(s: Seq<char>, at: int) -> int
    decreases s.len() - at,
{
    if 0 <= at < s.len() && s[at] != '"' {
        quote_from(s, at + 1)
    } else {
        at
    }
}

/// The end of the subject that starts at `at`, if one starts there: behind
/// the `"` that closes it.
pub open spec fn subject_end(s: Seq<char>, at: int) -> Option<int> {
    if 0 <= at < s.len() && s[at] == '"' && quote_from(s, at + 1) < s.len() {
        Some(quote_from(s, at + 1) + 1)
    } else {
        None
    }
}

/// Where a command stands: its subject from `start` to `subject_end`, and
/// its operations; `end` is the end of the last of them.
pub struct CommandSpan {
    pub start: int,
    pub subject_end: int,
    pub operations: Seq<OperationSpan>,
    pub end: int,
}

/// Where a command stands.
#[derive(Debug, PartialEq, Eq)]
pub struct CommandMatch {
    pub start: usize,
    pub subject_end: usize,
    pub operations: Vec<OperationMatch>,
    pub end: usize,
}

impl View for CommandMatch {
    type V = CommandSpan;

    open spec fn view(&self) -> CommandSpan {
        CommandSpan {
            start: self.start as int,
            subject_end: self.subject_end as int,
            operations: operation_spans(self.operations@),
            end: self.end as int,
        }
    }
}

/// The command at `at`: a subject and at least one operation.
pub open spec fn command_at(s: Seq<char>, at: int) -> Option<CommandSpan> {
    match subject_end(s, at) {
        Some(subject_end) => {
            let operations = operations_from(s, subject_end);
            if operations.len() > 0 {
                Some(
                    CommandSpan { start: at, subject_end, operations, end: operations.last().end },
                )
            } else {
                None
            }
        },
        None => None,
    }
}

/// The end of the longest run of blanks and line breaks that starts at `at`.
pub open spec fn separators_end(s: Seq<char>, at: int) -> int
    decreases s.len() - at,
{
    if 0 <= at < s.len() && (is_blank(s[at]) || is_line_break(s[at])) {
        separators_end(s, at + 1)
    } else {
        at
    }
}

/// The first line break from `at` on, or the end of `s`.
pub open spec fn line_end(s: Seq<char>, at: int) -> int
    decreases s.len() - at,
{
    if 0 <= at < s.len() && !is_line_break(s[at]) {
        line_end(s, at + 1)
    } else {
        at
    }
}

/// An item of a list: a command, or what stands in the place of one.
pub enum ItemSpan {
    Command(CommandSpan),
    Wrong { start: int, end: int },
}

impl ItemSpan {
    /// Where the item ends.
    pub open spec fn end(self) -> int {
        match self {
            ItemSpan::Command(c) => c.end,
            ItemSpan::Wrong { start, end } => end,
        }
    }

    /// Where the item starts.
    pub open spec fn start(self) -> int {
        match self {
            ItemSpan::Command(c) => c.start,
            ItemSpan::Wrong { start, end } => start,
        }
    }
}

/// The item at `at`: the command there, or else the rest of the line.
pub open spec fn item_at(s: Seq<char>, at: int) -> ItemSpan {
    match command_at(s, at) {
        Some(c) => ItemSpan::Command(c),
        None => ItemSpan::Wrong { start: at, end: line_end(s, at) },
    }
}

/// The items from `at` on.
pub open spec fn items_from(s: Seq<char>, at: int) -> Seq<ItemSpan>
    decreases s.len() - at,
{
    if 0 <= at <= s.len() && separators_end(s, at) < s.len() {
        proof {
            lemma_separators_end(s, at);
            lemma_item_at(s, separators_end(s, at));
        }
        seq![item_at(s, separators_end(s, at))] + items_from(
            s,
            item_at(s, separators_end(s, at)).end(),
        )
    } else {
        Seq::empty()
    }
}

/// An operation is well placed in `s`: it is what its own form finds at its
/// start.
pub open spec fn placed(s: Seq<char>, op: OperationSpan) -> bool {
    0 <= op.start && trial(op.operator, s, op.start) == Some(op)
}

/// An operator is not empty, and only the three operators are operators.
pub proof fn lemma_operator_end(rule: Rule, s: Seq<char>, at: int)
    requires
        0 <= at <= s.len(),
    ensures
        operator_end(rule, s, at) matches Some(end) ==> at < end <= s.len(),
        operator_end(rule, s, at) is Some ==> rule == Rule::mult || rule == Rule::multAll || rule
            == Rule::duplicate,
{
    if star_at(s, at) {
        lemma_number_end(s, at + 1);
        if at + 1 < s.len() {
            lemma_number_end(s, at + 2);
        }
    }
}

/// What a form finds: its parts follow each other within the text.
pub proof fn lemma_trial(rule: Rule, s: Seq<char>, at: int)
    requires
        0 <= at <= s.len(),
    ensures
        trial(rule, s, at) matches Some(op) ==> op.operator == rule && op.start == at && at
            < op.operator_end <= op.argument < op.end <= s.len() && operator_end(rule, s, at)
            == Some(op.operator_end) && op.argument == blanks_end(s, op.operator_end)
            && number_end(s, op.argument) == Some(op.end) && (rule == Rule::mult || rule
            == Rule::multAll || rule == Rule::duplicate),
{
    lemma_operator_end(rule, s, at);
    match operator_end(rule, s, at) {
        Some(operator_end) => {
            lemma_blanks_end(s, operator_end);
            lemma_number_end(s, blanks_end(s, operator_end));
        },
        None => {},
    }
}

/// An operation is well placed, not empty, and ends within the text.
pub proof fn lemma_operation_at(s: Seq<char>, at: int)
    requires
        0 <= at <= s.len(),
    ensures
        operation_at(s, at) matches Some(op) ==> placed(s, op) && op.start == at && at
            < op.operator_end <= op.argument < op.end <= s.len(),
{
    lemma_trial(Rule::mult, s, at);
    lemma_trial(Rule::multAll, s, at);
    lemma_trial(Rule::duplicate, s, at);
}

/// No `"` stands before the first `"`.
pub proof fn lemma_quote_from(s: Seq<char>, at: int)
    requires
        0 <= at <= s.len(),
    ensures
        at <= quote_from(s, at) <= s.len(),
        forall|i: int| at <= i < quote_from(s, at) ==> #[trigger] s[i] != '"',
        quote_from(s, at) < s.len() ==> s[quote_from(s, at)] == '"',
    decreases s.len() - at,
{
    if at < s.len() && s[at] != '"' {
        lemma_quote_from(s, at + 1);
    }
}

/// A run without a `"` that stops at one, or at the end, stops at the first.
pub proof fn lemma_quote_from_is(s: Seq<char>, at: int, end: int)
    requires
        0 <= at <= end <= s.len(),
        forall|i: int| at <= i < end ==> #[trigger] s[i] != '"',
        end < s.len() ==> s[end] == '"',
    ensures
        quote_from(s, at) == end,
    decreases end - at,
{
    if at < end {
        lemma_quote_from_is(s, at + 1, end);
    }
}

/// Behind the separators stands the end of the text or another character.
pub proof fn lemma_separators_end(s: Seq<char>, at: int)
    requires
        0 <= at <= s.len(),
    ensures
        at <= separators_end(s, at) <= s.len(),
        separators_end(s, at) < s.len() ==> !is_blank(s[separators_end(s, at)]) && !is_line_break(
            s[separators_end(s, at)],
        ),
    decreases s.len() - at,
{
    if at < s.len() && (is_blank(s[at]) || is_line_break(s[at])) {
        lemma_separators_end(s, at + 1);
    }
}

/// A run of separators that stops at `end` is the longest one.
pub proof fn lemma_separators_end_is(s: Seq<char>, at: int, end: int)
    requires
        0 <= at <= end <= s.len(),
        forall|i: int| at <= i < end ==> is_blank(#[trigger] s[i]) || is_line_break(s[i]),
        end < s.len() ==> !is_blank(s[end]) && !is_line_break(s[end]),
    ensures
        separators_end(s, at) == end,
    decreases end - at,
{
    if at < end {
        lemma_separators_end_is(s, at + 1, end);
    }
}

/// A line ends within the text, and is not empty unless it starts with a
/// line break.
pub proof fn lemma_line_end(s: Seq<char>, at: int)
    requires
        0 <= at <= s.len(),
    ensures
        at <= line_end(s, at) <= s.len(),
        at < s.len() && !is_line_break(s[at]) ==> at < line_end(s, at),
    decreases s.len() - at,
{
    if at < s.len() && !is_line_break(s[at]) {
        lemma_line_end(s, at + 1);
    }
}

/// A run without a line break that stops at one, or at the end, is the
/// line.
pub proof fn lemma_line_end_is(s: Seq<char>, at: int, end: int)
    requires
        0 <= at <= end <= s.len(),
        forall|i: int| at <= i < end ==> !is_line_break(#[trigger] s[i]),
        end < s.len() ==> is_line_break(s[end]),
    ensures
        line_end(s, at) == end,
    decreases end - at,
{
    if at < end {
        lemma_line_end_is(s, at + 1, end);
    }
}

/// The operations that follow each other are well placed, each behind the
/// one before it.
pub proof fn lemma_operations_from(s: Seq<char>, at: int)
    requires
        0 <= at <= s.len(),
    ensures
        forall|i: int|
            0 <= i < operations_from(s, at).len() ==> placed(
                s,
                #[trigger] operations_from(s, at)[i],
            ) && at <= operations_from(s, at)[i].start && operations_from(s, at)[i].end
                <= s.len(),
        operations_from(s, at).len() > 0 ==> at < operations_from(s, at).last().end,
    decreases s.len() - at,
{
    lemma_blanks_end(s, at);
    lemma_operation_at(s, blanks_end(s, at));
    match operation_at(s, blanks_end(s, at)) {
        Some(op) => {
            lemma_operations_from(s, op.end);
            let rest = operations_from(s, op.end);
            let all = operations_from(s, at);
            assert(all == seq![op] + rest);
            assert forall|i: int| 0 <= i < all.len() implies placed(s, #[trigger] all[i]) && at
                <= all[i].start && all[i].end <= s.len() by {
                if i > 0 {
                    assert(all[i] == rest[i - 1]);
                }
            }
            if rest.len() > 0 {
                assert(all.last() == rest.last());
            }
        },
        None => {},
    }
}

/// The parts of a command: a subject of two quotes at least, and operations
/// behind it, up to the end of the last.
pub proof fn lemma_command_at(s: Seq<char>, at: int)
    requires
        0 <= at <= s.len(),
    ensures
        command_at(s, at) matches Some(c) ==> c.start == at && at + 2 <= c.subject_end < c.end
            <= s.len() && s[at] == '"' && quote_from(s, at + 1) == c.subject_end - 1
            && c.operations == operations_from(s, c.subject_end) && c.operations.len() > 0 && c.end
            == c.operations.last().end,
{
    if at < s.len() {
        lemma_quote_from(s, at + 1);
        match subject_end(s, at) {
            Some(subject_end) => {
                lemma_operations_from(s, subject_end);
            },
            None => {},
        }
    }
}

/// An item starts where it is looked for, and is not empty.
pub proof fn lemma_item_at(s: Seq<char>, at: int)
    requires
        0 <= at < s.len(),
        !is_line_break(s[at]),
    ensures
        item_at(s, at).start() == at,
        at < item_at(s, at).end() <= s.len(),
{
    lemma_command_at(s, at);
    lemma_line_end(s, at);
}

/// Matches the index of a `mult` at `at`.
fn scan_index(chars: &[char], at: usize) -> (end: Option<usize>)
    ensures
        end is Some <==> index_end(chars@, at as int) is Some,
        end matches Some(e) ==> index_end(chars@, at as int) == Some(e as int) && at + 2 < e
            <= chars.len(),
{
    if at < chars.len() && chars[at] == '[' {
        match scan_integer(chars, at + 1) {
            Some(e) => {
                if e < chars.len() && chars[e] == ']' {
                    Some(e + 1)
                } else {
                    None
                }
            },
            None => None,
        }
    } else {
        None
    }
}

/// Matches the operator `rule` at `at`.
pub fn scan_operator(rule: Rule, chars: &[char], at: usize) -> (end: Option<usize>)
    ensures
        end is Some <==> operator_end(rule, chars@, at as int) is Some,
        end matches Some(e) ==> operator_end(rule, chars@, at as int) == Some(e as int) && at < e
            <= chars.len(),
{
    let len = chars.len();
    match rule {
        Rule::mult => {
            if at < len && chars[at] == '*' {
                match scan_index(chars, at + 1) {
                    Some(e) => Some(e),
                    None => Some(at + 1),
                }
            } else {
                None
            }
        },
        Rule::multAll => {
            if at < len && chars[at] == '*' && at + 1 < len && chars[at + 1] == '*' {
                Some(at + 2)
            } else {
                None
            }
        },
        Rule::duplicate => {
            if at < len && chars[at] == '*' && at + 1 < len && chars[at + 1] == '*' && at + 2 < len
                && chars[at + 2] == '*' {
                Some(at + 3)
            } else {
                None
            }
        },
        _ => None,
    }
}

/// Tries the form of the operator `rule` at `at`.
fn scan_trial(rule: Rule, chars: &[char], at: usize) -> (found: Option<OperationMatch>)
    ensures
        found is Some <==> trial(rule, chars@, at as int) is Some,
        found matches Some(m) ==> trial(rule, chars@, at as int) == Some(m@),
{
    match scan_operator(rule, chars, at) {
        Some(operator_end) => {
            let argument = scan_blanks(chars, operator_end);
            match scan_number(chars, argument) {
                Some(end) => Some(
                    OperationMatch { operator: rule, start: at, operator_end, argument, end },
                ),
                None => None,
            }
        },
        None => None,
    }
}

/// Matches an operation at `at`.
pub fn scan_operation(chars: &[char], at: usize) -> (found: Option<OperationMatch>)
    ensures
        found is Some <==> operation_at(chars@, at as int) is Some,
        found matches Some(m) ==> operation_at(chars@, at as int) == Some(m@) && placed(
            chars@,
            m@,
        ) && at < m.end <= chars.len(),
{
    proof {
        if at <= chars.len() {
            lemma_operation_at(chars@, at as int);
        }
    }
    match scan_trial(Rule::mult, chars, at) {
        Some(m) => Some(m),
        None => match scan_trial(Rule::multAll, chars, at) {
            Some(m) => Some(m),
            None => scan_trial(Rule::duplicate, chars, at),
        },
    }
}

/// Matches a subject at `at`.
pub fn scan_subject(chars: &[char], at: usize) -> (end: Option<usize>)
    ensures
        end is Some <==> subject_end(chars@, at as int) is Some,
        end matches Some(e) ==> subject_end(chars@, at as int) == Some(e as int) && at + 2 <= e
            <= chars.len() && quote_from(chars@, at + 1) == e - 1,
{
    if at < chars.len() && chars[at] == '"' {
        let mut i: usize = at + 1;
        while i < chars.len() && chars[i] != '"'
            invariant
                at + 1 <= i <= chars.len(),
                forall|k: int| at + 1 <= k < i ==> #[trigger] chars@[k] != '"',
            decreases chars.len() - i,
        {
            i += 1;
        }
        proof {
            lemma_quote_from_is(chars@, at + 1, i as int);
        }
        if i < chars.len() {
            Some(i + 1)
        } else {
            None
        }
    } else {
        None
    }
}

/// Matches a command at `at`.
pub fn scan_command(chars: &[char], at: usize) -> (found: Option<CommandMatch>)
    ensures
        found is Some <==> command_at(chars@, at as int) is Some,
        found matches Some(m) ==> command_at(chars@, at as int) == Some(m@) && m.start == at
            && at + 2 <= m.subject_end < m.end <= chars.len() && forall|i: int|
            0 <= i < m.operations@.len() ==> placed(chars@, (#[trigger] m.operations@[i])@),
{
    match scan_subject(chars, at) {
        None => None,
        Some(subject_end) => {
            let ghost all = operations_from(chars@, subject_end as int);
            let mut operations: Vec<OperationMatch> = Vec::new();
            let mut end: usize = subject_end;
            assert(operation_spans(operations@) + operations_from(chars@, end as int) =~= all);
            loop
                invariant
                    subject_end <= end <= chars.len(),
                    operation_spans(operations@) + operations_from(chars@, end as int) == all,
                    forall|i: int|
                        0 <= i < operations@.len() ==> placed(chars@, (#[trigger] operations@[i])@),
                    operations@.len() > 0 ==> end == operations@.last().end && subject_end < end,
                    operations@.len() == 0 ==> end == subject_end,
                ensures
                    operation_spans(operations@) == all,
                decreases chars.len() - end,
            {
                let next = scan_blanks(chars, end);
                match scan_operation(chars, next) {
                    Some(m) => {
                        let ghost before = operation_spans(operations@);
                        let ghost rest = operations_from(chars@, end as int);
                        operations.push(m);
                        proof {
                            assert(rest == seq![m@] + operations_from(chars@, m.end as int));
                            assert(operation_spans(operations@) =~= before.push(m@));
                            assert(before.push(m@) + operations_from(chars@, m.end as int)
                                =~= before + rest);
                        }
                        end = m.end;
                    },
                    None => {
                        proof {
                            assert(operations_from(chars@, end as int) =~= Seq::<
                                OperationSpan,
                            >::empty());
                            assert(operation_spans(operations@) =~= all);
                        }
                        break ;
                    },
                }
            }
            if operations.len() > 0 {
                proof {
                    let spans = operation_spans(operations@);
                    assert(spans.last() == operations@.last()@);
                }
                Some(CommandMatch { start: at, subject_end, operations, end })
            } else {
                None
            }
        },
    }
}

/// Skips the blanks and line breaks at `at`.
pub fn scan_separators(chars: &[char], at: usize) -> (end: usize)
    ensures
        end == separators_end(chars@, at as int),
        at <= end,
        at <= chars.len() ==> end <= chars.len(),
{
    let mut i: usize = at;
    while i < chars.len() && (is_blank_char(chars[i]) || is_line_break_char(chars[i]))
        invariant
            at <= i,
            at <= chars.len() ==> i <= chars.len(),
            at > chars.len() ==> i == at,
            forall|k: int|
                at <= k < i ==> is_blank(#[trigger] chars@[k]) || is_line_break(chars@[k]),
        decreases chars.len() - i,
    {
        i += 1;
    }
    proof {
        if at <= chars.len() {
            lemma_separators_end_is(chars@, at as int, i as int);
        }
    }
    i
}

/// Skips to the end of the line.
pub fn scan_line(chars: &[char], at: usize) -> (end: usize)
    ensures
        end == line_end(chars@, at as int),
        at <= end,
        at <= chars.len() ==> end <= chars.len(),
{
    let mut i: usize = at;
    while i < chars.len() && !is_line_break_char(chars[i])
        invariant
            at <= i,
            at <= chars.len() ==> i <= chars.len(),
            at > chars.len() ==> i == at,
            forall|k: int| at <= k < i ==> !is_line_break(#[trigger] chars@[k]),
        decreases chars.len() - i,
    {
        i += 1;
    }
    proof {
        if at <= chars.len() {
            lemma_line_end_is(chars@, at as int, i as int);
        }
    }
    i
}

/// An item of a list.
#[derive(Debug, PartialEq, Eq)]
pub enum ItemMatch {
    Command(CommandMatch),
    Wrong { start: usize, end: usize },
}

impl View for ItemMatch {
    type V = ItemSpan;

    open spec fn view(&self) -> ItemSpan {
        match self {
            ItemMatch::Command(m) => ItemSpan::Command(m@),
            ItemMatch::Wrong { start, end } => ItemSpan::Wrong {
                start: *start as int,
                end: *end as int,
            },
        }
    }
}

/// The views of the matches `ms`.
pub open spec fn item_spans(ms: Seq<ItemMatch>) -> Seq<ItemSpan> {
    Seq::new(ms.len(), |i: int| ms[i]@)
}

/// An item is well placed in `s`: it is what stands at its start.
pub open spec fn item_placed(s: Seq<char>, item: ItemSpan) -> bool {
    &&& 0 <= item.start() < item.end() <= s.len()
    &&& item == item_at(s, item.start())
    &&& item matches ItemSpan::Command(c) ==> forall|i: int|
        0 <= i < c.operations.len() ==> placed(s, #[trigger] c.operations[i])
}

/// Matches the items of a list.
pub fn scan_items(chars: &[char]) -> (items: Vec<ItemMatch>)
    ensures
        item_spans(items@) == items_from(chars@, 0),
        forall|i: int| 0 <= i < items@.len() ==> item_placed(chars@, (#[trigger] items@[i])@),
{
    let ghost all = items_from(chars@, 0);
    let mut items: Vec<ItemMatch> = Vec::new();
    let mut at: usize = 0;
    assert(item_spans(items@) + items_from(chars@, 0) =~= all);
    loop
        invariant
            at <= chars.len(),
            item_spans(items@) + items_from(chars@, at as int) == all,
            forall|i: int| 0 <= i < items@.len() ==> item_placed(chars@, (#[trigger] items@[i])@),
        ensures
            item_spans(items@) == all,
        decreases chars.len() - at,
    {
        let start = scan_separators(chars, at);
        if start >= chars.len() {
            proof {
                assert(items_from(chars@, at as int) =~= Seq::<ItemSpan>::empty());
                assert(item_spans(items@) =~= all);
            }
            break ;
        }
        proof {
            lemma_separators_end(chars@, at as int);
            lemma_item_at(chars@, start as int);
            lemma_command_at(chars@, start as int);
        }
        let ghost before = item_spans(items@);
        let ghost rest = items_from(chars@, at as int);
        let (item, end) = match scan_command(chars, start) {
            Some(m) => {
                let end = m.end;
                proof {
                    let c = m@;
                    assert forall|i: int| 0 <= i < c.operations.len() implies placed(
                        chars@,
                        #[trigger] c.operations[i],
                    ) by {
                        assert(c.operations[i] == m.operations@[i]@);
                    }
                }
                (ItemMatch::Command(m), end)
            },
            None => {
                let end = scan_line(chars, start);
                (ItemMatch::Wrong { start, end }, end)
            },
        };
        proof {
            assert(item@ == item_at(chars@, start as int));
            assert(rest == seq![item@] + items_from(chars@, end as int));
        }
        items.push(item);
        proof {
            assert(item_spans(items@) =~= before.push(items@.last()@));
            assert(before.push(items@.last()@) + items_from(chars@, end as int) =~= before + rest);
        }
        at = end;
    }
    items
}

} // verus!
