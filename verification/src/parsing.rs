//! From text to commands.
//!
//! A command is a subject and one or more operations; blanks may stand before
//! it, between its parts and behind it, and nothing else. The argument of `*`
//! and of `**` is read as a number. The argument of `***` is read as a whole
//! number where it has no fraction, and as a number where it has one. An
//! index, or a whole number that is an argument, has to fit the machine's
//! integer; a number has no such limit.

use crate::command::{
    Argument, ArgumentView, CommandView, OperationType, OperationView, ParamsPiece, PieceView,
    StringMultCommand, StringMultOperation, operations_view, pieces_view,
};
use crate::decimal::{digit_values, number_view, Decimal};
use crate::digits::{digits_value, lemma_value_prefix};
use crate::grammar::{
    command_at, item_placed, item_spans, items_from, lemma_command_at, lemma_trial,
    operation_spans, placed, scan_command, scan_items, scan_subject, subject_end, CommandMatch,
    CommandSpan, ItemMatch, ItemSpan, OperationMatch, OperationSpan, Rule,
};
use crate::segment::{segment, segments};
use crate::syntax::{
    blanks_end, integer_end, is_digit, lemma_digits_end, scan_blanks, scan_integer, sign_end,
};
use crate::text::{chars_between, chars_of, string_of};
use vstd::prelude::*;

verus! {

/// Why a text could not be read as a command or as a list of commands.
///
/// The functions of this module give three of these errors: `NoCommandsList`,
/// `WrongCommand` and `ParseIntError`. The others name what the grammar
/// leaves no room for.
#[derive(Debug, PartialEq, Eq)]
pub enum ParseError {
    /// The text holds no item of a list.
    NoCommandsList,
    /// The text, given here, is no command.
    WrongCommand(String),
    /// A rule, named here, matched where no such rule belongs.
    UnexpectedRule(String),
    /// An argument stands before its operator.
    ArgumentWithoutOperation,
    /// The number written by the literal given here cannot be held. A number
    /// has no limit, so this does not happen.
    ParseFloatError(String),
    /// The whole number written by the literal given here does not fit
    /// `isize`.
    ParseIntError(String),
    /// Anything else.
    Unknown,
}

/// What a [`ParseError`] holds.
pub enum ParseErrorView {
    NoCommandsList,
    WrongCommand(Seq<char>),
    UnexpectedRule(Seq<char>),
    ArgumentWithoutOperation,
    ParseFloatError(Seq<char>),
    ParseIntError(Seq<char>),
    Unknown,
}

impl View for ParseError {
    type V = ParseErrorView;

    open spec fn view(&self) -> ParseErrorView {
        match self {
            ParseError::NoCommandsList => ParseErrorView::NoCommandsList,
            ParseError::WrongCommand(t) => ParseErrorView::WrongCommand(t@),
            ParseError::UnexpectedRule(t) => ParseErrorView::UnexpectedRule(t@),
            ParseError::ArgumentWithoutOperation => ParseErrorView::ArgumentWithoutOperation,
            ParseError::ParseFloatError(t) => ParseErrorView::ParseFloatError(t@),
            ParseError::ParseIntError(t) => ParseErrorView::ParseIntError(t@),
            ParseError::Unknown => ParseErrorView::Unknown,
        }
    }
}

impl Clone for ParseError {
    fn clone(&self) -> (r: ParseError)
        ensures
            r@ == self@,
    {
        match self {
            ParseError::NoCommandsList => ParseError::NoCommandsList,
            ParseError::WrongCommand(t) => ParseError::WrongCommand(t.clone()),
            ParseError::UnexpectedRule(t) => ParseError::UnexpectedRule(t.clone()),
            ParseError::ArgumentWithoutOperation => ParseError::ArgumentWithoutOperation,
            ParseError::ParseFloatError(t) => ParseError::ParseFloatError(t.clone()),
            ParseError::ParseIntError(t) => ParseError::ParseIntError(t.clone()),
            ParseError::Unknown => ParseError::Unknown,
        }
    }
}

/// The whole number that the integer `t` writes.
pub open spec fn integer_value(t: Seq<char>) -> int {
    let first = sign_end(t, 0);
    let magnitude = digits_value(digit_values(t.skip(first)));
    if first == 1 {
        -magnitude
    } else {
        magnitude as int
    }
}

/// The whole numbers that an index or a count can hold.
pub open spec fn fits(n: int) -> bool {
    isize::MIN <= n <= isize::MAX
}

/// The whole number that the integer `t` writes, or the error that says
/// that it does not fit.
pub open spec fn integer_of(t: Seq<char>) -> Result<isize, ParseErrorView> {
    if fits(integer_value(t)) {
        Ok(integer_value(t) as isize)
    } else {
        Err(ParseErrorView::ParseIntError(t))
    }
}

/// The index that the operator of `op` names.
pub open spec fn index_of(s: Seq<char>, op: OperationSpan) -> Result<isize, ParseErrorView> {
    if op.operator_end > op.start + 1 {
        integer_of(s.subrange(op.start + 2, op.operator_end - 1))
    } else {
        Ok(0isize)
    }
}

/// The argument of `op`. Only a duplication reads it as a whole number, and
/// only where it has no fraction.
pub open spec fn argument_of(s: Seq<char>, op: OperationSpan) -> Result<
    ArgumentView,
    ParseErrorView,
> {
    let token = s.subrange(op.argument, op.end);
    if op.operator == Rule::duplicate && integer_end(s, op.argument) == Some(op.end) {
        match integer_of(token) {
            Ok(n) => Ok(ArgumentView::Integer(n as int)),
            Err(e) => Err(e),
        }
    } else {
        Ok(ArgumentView::Number(number_view(token)))
    }
}

/// The kind of `op`, with its index where it has one.
pub open spec fn kind_of(s: Seq<char>, op: OperationSpan) -> Result<OperationType, ParseErrorView> {
    match op.operator {
        Rule::mult => match index_of(s, op) {
            Ok(index) => Ok(OperationType::Mult(Some(index))),
            Err(e) => Err(e),
        },
        Rule::multAll => Ok(OperationType::MultAll),
        _ => Ok(OperationType::Duplicate),
    }
}

/// The operation that stands at `op`.
pub open spec fn operation_value(s: Seq<char>, op: OperationSpan) -> Result<
    OperationView,
    ParseErrorView,
> {
    match kind_of(s, op) {
        Err(e) => Err(e),
        Ok(operation_type) => match argument_of(s, op) {
            Err(e) => Err(e),
            Ok(argument) => Ok(OperationView { operation_type, argument }),
        },
    }
}

/// The operations that stand at `ops`, or the error of the first of them
/// that has one.
pub open spec fn operations_value(s: Seq<char>, ops: Seq<OperationSpan>) -> Result<
    Seq<OperationView>,
    ParseErrorView,
>
    decreases ops.len(),
{
    if ops.len() == 0 {
        Ok(Seq::empty())
    } else {
        match operations_value(s, ops.drop_last()) {
            Err(e) => Err(e),
            Ok(before) => match operation_value(s, ops.last()) {
                Err(e) => Err(e),
                Ok(op) => Ok(before.push(op)),
            },
        }
    }
}

/// The command that stands at `c`: the pieces of what its quotes hold, and
/// its operations.
pub open spec fn command_value(s: Seq<char>, c: CommandSpan) -> Result<
    CommandView,
    ParseErrorView,
> {
    match operations_value(s, c.operations) {
        Err(e) => Err(e),
        Ok(operations) => Ok(
            CommandView {
                params: segments(s.subrange(c.start + 1, c.subject_end - 1)),
                operations,
            },
        ),
    }
}

/// The command that `s` writes.
pub open spec fn command_of(s: Seq<char>) -> Result<CommandView, ParseErrorView> {
    match command_at(s, blanks_end(s, 0)) {
        Some(c) => if blanks_end(s, c.end) == s.len() {
            command_value(s, c)
        } else {
            Err(ParseErrorView::WrongCommand(s))
        },
        None => Err(ParseErrorView::WrongCommand(s)),
    }
}

/// What the item `item` of a list gives.
pub open spec fn item_value(s: Seq<char>, item: ItemSpan) -> Result<CommandView, ParseErrorView> {
    match item {
        ItemSpan::Command(c) => command_value(s, c),
        ItemSpan::Wrong { start, end } => Err(ParseErrorView::WrongCommand(s.subrange(start, end))),
    }
}

/// What the list `s` gives: one entry for each of its items, in their order.
pub open spec fn list_of(s: Seq<char>) -> Result<
    Seq<Result<CommandView, ParseErrorView>>,
    ParseErrorView,
> {
    let items = items_from(s, 0);
    if items.len() == 0 {
        Err(ParseErrorView::NoCommandsList)
    } else {
        Ok(Seq::new(items.len(), |i: int| item_value(s, items[i])))
    }
}

/// The pieces of the subject that `s` starts with.
pub open spec fn params_of(s: Seq<char>) -> Result<Seq<PieceView>, ParseErrorView> {
    match subject_end(s, 0) {
        Some(end) => Ok(segments(s.subrange(1, end - 1))),
        None => Err(ParseErrorView::WrongCommand(s)),
    }
}

/// What a parsed command holds.
pub open spec fn parsed_view(r: Result<StringMultCommand, ParseError>) -> Result<
    CommandView,
    ParseErrorView,
> {
    match r {
        Ok(c) => Ok(c@),
        Err(e) => Err(e@),
    }
}

/// What a parsed list holds.
pub open spec fn parsed_list_view(
    r: Result<Vec<Result<StringMultCommand, ParseError>>, ParseError>,
) -> Result<Seq<Result<CommandView, ParseErrorView>>, ParseErrorView> {
    match r {
        Ok(entries) => Ok(Seq::new(entries@.len(), |i: int| parsed_view(entries@[i]))),
        Err(e) => Err(e@),
    }
}

/// What parsed pieces hold.
pub open spec fn parsed_params_view(r: Result<Vec<ParamsPiece>, ParseError>) -> Result<
    Seq<PieceView>,
    ParseErrorView,
> {
    match r {
        Ok(pieces) => Ok(pieces_view(pieces@)),
        Err(e) => Err(e@),
    }
}

/// Reads the integer `chars[start..end]`: `None` if it does not fit.
fn parse_integer(chars: &[char], start: usize, end: usize) -> (r: Option<isize>)
    requires
        start <= chars.len(),
        integer_end(chars@, start as int) == Some(end as int),
    ensures
        r is Some <==> fits(integer_value(chars@.subrange(start as int, end as int))),
        r matches Some(n) ==> n == integer_value(chars@.subrange(start as int, end as int)),
{
    let ghost t = chars@.subrange(start as int, end as int);
    proof {
        lemma_digits_end(chars@, sign_end(chars@, start as int));
    }
    let negative = chars[start] == '-';
    let first: usize = if negative {
        start + 1
    } else {
        start
    };
    let ghost d = digit_values(chars@.subrange(first as int, end as int));
    proof {
        assert(sign_end(t, 0) == first - start);
        assert(t.skip(first - start) =~= chars@.subrange(first as int, end as int));
    }
    let limit: u128 = isize::MAX as u128 + 1;
    let mut m: u128 = 0;
    let mut i: usize = first;
    assert(d.take(0) =~= Seq::<u8>::empty());
    while i < end
        invariant
            first <= i <= end <= chars.len(),
            forall|k: int| first <= k < end ==> is_digit(#[trigger] chars@[k]),
            d == digit_values(chars@.subrange(first as int, end as int)),
            m == digits_value(d.take(i - first)),
            m <= limit,
            limit == isize::MAX + 1,
            t == chars@.subrange(start as int, end as int),
            integer_value(t) == if negative {
                -(digits_value(d) as int)
            } else {
                digits_value(d) as int
            },
        decreases end - i,
    {
        let c = chars[i];
        let digit: u8 = (c as u8) - 48;
        proof {
            let next = d.take(i + 1 - first);
            assert(next.drop_last() =~= d.take(i - first));
            assert(next.last() == digit);
            assert(digits_value(next) == 10 * m + digit);
            lemma_value_prefix(d, i + 1 - first);
        }
        m = m * 10 + digit as u128;
        if m > limit {
            return None;
        }
        i += 1;
    }
    assert(d.take(end - first) =~= d);
    if negative {
        let wide: i128 = -(m as i128);
        Some(wide as isize)
    } else if m < limit {
        Some(m as isize)
    } else {
        None
    }
}

/// The error that says that `chars` are no command.
fn wrong_command(chars: &[char]) -> (e: ParseError)
    ensures
        e@ == ParseErrorView::WrongCommand(chars@),
{
    assert(chars@.subrange(0, chars.len() as int) =~= chars@);
    ParseError::WrongCommand(string_of(chars, 0, chars.len()))
}

/// Reads the integer `chars[start..end]`.
fn read_integer(chars: &[char], start: usize, end: usize) -> (r: Result<isize, ParseError>)
    requires
        start <= chars.len(),
        integer_end(chars@, start as int) == Some(end as int),
    ensures
        operation_part_view(r) == integer_of(chars@.subrange(start as int, end as int)),
{
    proof {
        lemma_digits_end(chars@, sign_end(chars@, start as int));
    }
    match parse_integer(chars, start, end) {
        Some(n) => Ok(n),
        None => Err(ParseError::ParseIntError(string_of(chars, start, end))),
    }
}

/// What a part of an operation, read or failed, holds.
pub open spec fn operation_part_view<T>(r: Result<T, ParseError>) -> Result<T, ParseErrorView> {
    match r {
        Ok(v) => Ok(v),
        Err(e) => Err(e@),
    }
}

/// What a read operation holds.
pub open spec fn operation_view(r: Result<StringMultOperation, ParseError>) -> Result<
    OperationView,
    ParseErrorView,
> {
    match r {
        Ok(op) => Ok(op@),
        Err(e) => Err(e@),
    }
}

/// Builds the operation that stands at `m`.
fn build_operation(chars: &[char], m: &OperationMatch) -> (r: Result<
    StringMultOperation,
    ParseError,
>)
    requires
        placed(chars@, m@),
        m.start <= chars.len(),
    ensures
        operation_view(r) == operation_value(chars@, m@),
{
    proof {
        lemma_trial(m.operator, chars@, m.start as int);
    }
    let operation_type = match m.operator {
        Rule::mult => {
            if m.operator_end > m.start + 1 {
                match read_integer(chars, m.start + 2, m.operator_end - 1) {
                    Ok(index) => OperationType::Mult(Some(index)),
                    Err(e) => {
                        return Err(e);
                    },
                }
            } else {
                OperationType::Mult(Some(0))
            }
        },
        Rule::multAll => OperationType::MultAll,
        _ => OperationType::Duplicate,
    };
    let whole = match m.operator {
        Rule::duplicate => match scan_integer(chars, m.argument) {
            Some(end) => end == m.end,
            None => false,
        },
        _ => false,
    };
    let argument = if whole {
        match read_integer(chars, m.argument, m.end) {
            Ok(n) => Argument::Integer(n),
            Err(e) => {
                return Err(e);
            },
        }
    } else {
        Argument::Number(Decimal::from_token(chars, m.argument, m.end))
    };
    Ok(StringMultOperation { operation_type, argument })
}

/// Builds the command that stands at `m`.
pub(crate) fn build_command(chars: &[char], m: &CommandMatch) -> (r: Result<
    StringMultCommand,
    ParseError,
>)
    requires
        m.start + 2 <= m.subject_end <= chars.len(),
        forall|i: int| 0 <= i < m.operations@.len() ==> placed(
            chars@,
            (#[trigger] m.operations@[i])@,
        ) && m.operations@[i].start <= chars.len(),
    ensures
        parsed_view(r) == command_value(chars@, m@),
{
    let ghost spans = operation_spans(m.operations@);
    let mut operations: Vec<StringMultOperation> = Vec::new();
    let mut i: usize = 0;
    assert(spans.take(0) =~= Seq::<OperationSpan>::empty());
    assert(operations_view(operations@) =~= Seq::<OperationView>::empty());
    while i < m.operations.len()
        invariant
            i <= m.operations.len(),
            spans == operation_spans(m.operations@),
            forall|k: int| 0 <= k < m.operations@.len() ==> placed(
                chars@,
                (#[trigger] m.operations@[k])@,
            ) && m.operations@[k].start <= chars.len(),
            operations_value(chars@, spans.take(i as int)) == Ok::<
                Seq<OperationView>,
                ParseErrorView,
            >(operations_view(operations@)),
        decreases m.operations.len() - i,
    {
        let ghost before = operations_view(operations@);
        proof {
            let next = spans.take(i + 1);
            assert(next.drop_last() =~= spans.take(i as int));
            assert(next.last() == m.operations@[i as int]@);
        }
        match build_operation(chars, &m.operations[i]) {
            Ok(op) => {
                operations.push(op);
                assert(operations_view(operations@) =~= before.push(op@));
            },
            Err(e) => {
                proof {
                    lemma_first_error(chars@, spans, i + 1);
                }
                return Err(e);
            },
        }
        i += 1;
    }
    assert(spans.take(m.operations.len() as int) =~= spans);
    let content = chars_between(chars, m.start + 1, m.subject_end - 1);
    let params = segment(&content);
    Ok(StringMultCommand { params, operations })
}

/// An error among the first operations is the error of all of them.
proof fn lemma_first_error(s: Seq<char>, ops: Seq<OperationSpan>, n: int)
    requires
        0 <= n <= ops.len(),
        operations_value(s, ops.take(n)) is Err,
    ensures
        operations_value(s, ops) == operations_value(s, ops.take(n)),
    decreases ops.len() - n,
{
    if n == ops.len() {
        assert(ops.take(n) =~= ops);
    } else {
        let next = ops.take(n + 1);
        assert(next.drop_last() =~= ops.take(n));
        lemma_first_error(s, ops, n + 1);
    }
}

/// Reads one command.
///
/// Fails with `WrongCommand`, which holds the whole text, unless the text is
/// a subject and at least one operation, with nothing but blanks around and
/// between them; and with `ParseIntError`, which holds the literal, where an
/// index or the whole-number argument of a duplication does not fit. No
/// other error is returned.
pub fn parse_command(input: &str) -> (r: Result<StringMultCommand, ParseError>)
    ensures
        parsed_view(r) == command_of(input@),
{
    let chars = chars_of(input);
    let start = scan_blanks(&chars, 0);
    match scan_command(&chars, start) {
        Some(m) => {
            let rest = scan_blanks(&chars, m.end);
            if rest == chars.len() {
                proof {
                    assert forall|i: int| 0 <= i < m.operations@.len() implies (
                    #[trigger] m.operations@[i]).start <= chars.len() by {
                        let op = m.operations@[i];
                        lemma_trial(op.operator, chars@, op.start as int);
                    }
                }
                build_command(&chars, &m)
            } else {
                Err(wrong_command(&chars))
            }
        },
        None => Err(wrong_command(&chars)),
    }
}

/// Reads the subject that `input` starts with, and cuts what its quotes hold
/// into pieces. Fails with `WrongCommand`, which holds the whole text, where
/// `input` does not start with a subject.
pub fn parse_params(input: &str) -> (r: Result<Vec<ParamsPiece>, ParseError>)
    ensures
        parsed_params_view(r) == params_of(input@),
{
    let chars = chars_of(input);
    match scan_subject(&chars, 0) {
        Some(end) => {
            let content = chars_between(&chars, 1, end - 1);
            Ok(segment(&content))
        },
        None => Err(wrong_command(&chars)),
    }
}

/// Builds what the item `item` gives.
pub(crate) fn build_item(chars: &[char], item: &ItemMatch) -> (r: Result<
    StringMultCommand,
    ParseError,
>)
    requires
        item_placed(chars@, item@),
    ensures
        parsed_view(r) == item_value(chars@, item@),
{
    match item {
        ItemMatch::Command(m) => {
            proof {
                lemma_command_at(chars@, m.start as int);
                assert forall|i: int| 0 <= i < m.operations@.len() implies placed(
                    chars@,
                    (#[trigger] m.operations@[i])@,
                ) && m.operations@[i].start <= chars.len() by {
                    assert(m@.operations[i] == m.operations@[i]@);
                    lemma_trial(m.operations@[i].operator, chars@, m.operations@[i].start as int);
                }
            }
            build_command(chars, m)
        },
        ItemMatch::Wrong { start, end } => Err(
            ParseError::WrongCommand(string_of(chars, *start, *end)),
        ),
    }
}

/// Reads a list of commands: one entry for each item, in the order of the
/// text. An item is a command or, where no command stands, the rest of the
/// line, which gives `WrongCommand` with that text. Items are parted by
/// blanks and line breaks, and a command may follow another on one line.
/// Fails as a whole, with `NoCommandsList`, only where the text holds no
/// item: where it is empty or holds blanks and line breaks only.
pub fn parse_list(input: &str) -> (r: Result<
    Vec<Result<StringMultCommand, ParseError>>,
    ParseError,
>)
    ensures
        parsed_list_view(r) == list_of(input@),
{
    let chars = chars_of(input);
    let items = scan_items(&chars);
    if items.len() == 0 {
        return Err(ParseError::NoCommandsList);
    }
    let ghost spans = items_from(chars@, 0);
    let mut entries: Vec<Result<StringMultCommand, ParseError>> = Vec::new();
    let mut i: usize = 0;
    while i < items.len()
        invariant
            i <= items.len(),
            spans == item_spans(items@),
            forall|k: int| 0 <= k < items@.len() ==> item_placed(chars@, (#[trigger] items@[k])@),
            entries@.len() == i,
            forall|k: int|
                0 <= k < i ==> parsed_view(#[trigger] entries@[k]) == item_value(chars@, spans[k]),
        decreases items.len() - i,
    {
        let entry = build_item(&chars, &items[i]);
        assert(spans[i as int] == items@[i as int]@);
        entries.push(entry);
        i += 1;
    }
    proof {
        let r = Ok::<Vec<Result<StringMultCommand, ParseError>>, ParseError>(entries);
        assert(parsed_list_view(r)->Ok_0 =~= list_of(input@)->Ok_0);
    }
    Ok(entries)
}

} // verus!
