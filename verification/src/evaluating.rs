//! From commands to results.
//!
//! The operations of a command are applied in order to the pieces of its
//! subject; what is left is shown as one string. A multiplication changes
//! numbers and leaves texts alone. A duplication by a positive count repeats
//! the pieces, by zero ends the command with an empty result, and by a
//! negative count first turns the subject round: the pieces are shown, the
//! characters are reversed, and the reversed text is cut into pieces anew.

use crate::command::{
    operations_view, pieces_text, pieces_view, to_string, write_pieces, Argument, ArgumentView,
    CommandView, OperationType, OperationView, ParamsPiece, PieceView, StringMultCommand,
    StringMultOperation,
};
use crate::decimal::{integer_view, product, Decimal, DecimalView};
use crate::grammar::{item_placed, item_spans, items_from, scan_items};
use crate::parsing::{
    build_item, command_of, item_value, parse_command, parsed_view, ParseError, ParseErrorView,
};
use crate::segment::{segment, segments};
use crate::text::chars_of;
use vstd::prelude::*;

verus! {

/// Why a command has no result.
///
/// Evaluating a command gives two of these errors: `IndexOutOfRange` and
/// `DuplicatingByFloat`. Reading one adds `ParseError`, and reading a list
/// `NoCommandsList`.
#[derive(Debug, PartialEq, Eq)]
pub enum EvalError {
    /// The text holds no item of a list.
    NoCommandsList,
    /// There is no command.
    NoCommand,
    /// The text is no command: why, is given here.
    ParseError(ParseError),
    /// The subject has no number at the index. Given here are the index as
    /// it was resolved, and the count of the numbers. A negative index that
    /// reaches before the first number is given as it wraps round: the
    /// largest `usize` for one place before the first number.
    IndexOutOfRange(usize, usize),
    /// A duplication takes a whole number, and its argument has a fraction.
    DuplicatingByFloat,
    /// Anything else.
    Unknown,
}

/// What an [`EvalError`] holds.
pub enum EvalErrorView {
    NoCommandsList,
    NoCommand,
    ParseError(ParseErrorView),
    IndexOutOfRange(usize, usize),
    DuplicatingByFloat,
    Unknown,
}

impl View for EvalError {
    type V = EvalErrorView;

    open spec fn view(&self) -> EvalErrorView {
        match self {
            EvalError::NoCommandsList => EvalErrorView::NoCommandsList,
            EvalError::NoCommand => EvalErrorView::NoCommand,
            EvalError::ParseError(e) => EvalErrorView::ParseError(e@),
            EvalError::IndexOutOfRange(index, count) => EvalErrorView::IndexOutOfRange(
                *index,
                *count,
            ),
            EvalError::DuplicatingByFloat => EvalErrorView::DuplicatingByFloat,
            EvalError::Unknown => EvalErrorView::Unknown,
        }
    }
}

impl Clone for EvalError {
    fn clone(&self) -> (r: EvalError)
        ensures
            r@ == self@,
    {
        match self {
            EvalError::NoCommandsList => EvalError::NoCommandsList,
            EvalError::NoCommand => EvalError::NoCommand,
            EvalError::ParseError(e) => EvalError::ParseError(e.clone()),
            EvalError::IndexOutOfRange(index, count) => EvalError::IndexOutOfRange(*index, *count),
            EvalError::DuplicatingByFloat => EvalError::DuplicatingByFloat,
            EvalError::Unknown => EvalError::Unknown,
        }
    }
}

/// What the result of a command holds.
pub open spec fn result_view(r: Result<String, EvalError>) -> Result<Seq<char>, EvalErrorView> {
    match r {
        Ok(s) => Ok(s@),
        Err(e) => Err(e@),
    }
}

/// How many of the pieces `ps` are numbers.
pub open spec fn number_count(ps: Seq<PieceView>) -> nat
    decreases ps.len(),
{
    if ps.len() == 0 {
        0
    } else {
        number_count(ps.drop_last()) + if ps.last() is Num {
            1nat
        } else {
            0nat
        }
    }
}

/// The first position from `at` on that holds the number with index `k`
/// among the numbers of `ps`; the length of `ps` if there is none.
pub open spec fn position_from(ps: Seq<PieceView>, k: int, at: int) -> int
    decreases ps.len() - at,
{
    if 0 <= at < ps.len() {
        if ps[at] is Num && number_count(ps.take(at)) == k {
            at
        } else {
            position_from(ps, k, at + 1)
        }
    } else {
        at
    }
}

/// Where among the pieces `ps` the number with index `k` stands, the
/// numbers counted from zero and the texts passed over.
pub open spec fn number_position(ps: Seq<PieceView>, k: int) -> int {
    position_from(ps, k, 0)
}

/// The index that an operation names, resolved against `count` numbers: a
/// missing index is the first number, a negative one counts from the end.
pub open spec fn resolved_index(index: Option<isize>, count: nat) -> int {
    match index {
        None => 0,
        Some(i) => if i < 0 {
            count + i
        } else {
            i as int
        },
    }
}

/// An index as an error reports it: a negative one wraps round.
pub open spec fn reported_index(r: int) -> usize {
    if r < 0 {
        (r + usize::MAX + 1) as usize
    } else {
        r as usize
    }
}

/// The factor that an argument stands for.
pub open spec fn argument_number(a: ArgumentView) -> DecimalView {
    match a {
        ArgumentView::Integer(n) => integer_view(n),
        ArgumentView::Number(v) => v,
    }
}

/// The piece `p` multiplied by `by`: a text is left as it is.
pub open spec fn scaled(p: PieceView, by: DecimalView) -> PieceView {
    match p {
        PieceView::Num(v) => PieceView::Num(product(v, by)),
        PieceView::Str(s) => PieceView::Str(s),
    }
}

/// The pieces `ps` with every number multiplied by `by`.
pub open spec fn multiply_all(ps: Seq<PieceView>, by: DecimalView) -> Seq<PieceView> {
    Seq::new(ps.len(), |i: int| scaled(ps[i], by))
}

/// The pieces `ps` with the one at `at` multiplied by `by`.
pub open spec fn multiply_one(ps: Seq<PieceView>, at: int, by: DecimalView) -> Seq<PieceView> {
    ps.update(at, scaled(ps[at], by))
}

/// The pieces `ps`, `n` times over.
pub open spec fn repeated(ps: Seq<PieceView>, n: nat) -> Seq<PieceView>
    decreases n,
{
    if n == 0 {
        Seq::empty()
    } else {
        repeated(ps, (n - 1) as nat) + ps
    }
}

/// The pieces of the subject turned round: what `ps` shows, read from the
/// last character to the first and cut into pieces anew.
pub open spec fn turned(ps: Seq<PieceView>) -> Seq<PieceView> {
    segments(pieces_text(ps).reverse())
}

/// What one operation makes of the pieces.
pub enum Outcome {
    /// The command goes on with these pieces.
    Pieces(Seq<PieceView>),
    /// The command ends here, and its result is empty.
    Empty,
    /// The command fails.
    Error(EvalErrorView),
}

/// What the operation `op` makes of the pieces `ps`.
pub open spec fn step(ps: Seq<PieceView>, op: OperationView) -> Outcome {
    match op.operation_type {
        OperationType::Mult(index) => {
            let count = number_count(ps);
            let r = resolved_index(index, count);
            if 0 <= r < count {
                Outcome::Pieces(
                    multiply_one(ps, number_position(ps, r), argument_number(op.argument)),
                )
            } else {
                Outcome::Error(EvalErrorView::IndexOutOfRange(reported_index(r), count as usize))
            }
        },
        OperationType::MultAll => Outcome::Pieces(multiply_all(ps, argument_number(op.argument))),
        OperationType::Duplicate => match op.argument {
            ArgumentView::Number(_) => Outcome::Error(EvalErrorView::DuplicatingByFloat),
            ArgumentView::Integer(n) => if n == 0 {
                Outcome::Empty
            } else if n > 0 {
                Outcome::Pieces(repeated(ps, n as nat))
            } else {
                Outcome::Pieces(repeated(turned(ps), (-n) as nat))
            },
        },
    }
}

/// What the operations `ops`, applied in order, make of the pieces `ps`.
/// The first operation that ends the command or fails decides; those behind
/// it are not applied.
pub open spec fn outcome(ps: Seq<PieceView>, ops: Seq<OperationView>) -> Outcome
    decreases ops.len(),
{
    if ops.len() == 0 {
        Outcome::Pieces(ps)
    } else {
        match step(ps, ops[0]) {
            Outcome::Pieces(next) => outcome(next, ops.drop_first()),
            Outcome::Empty => Outcome::Empty,
            Outcome::Error(e) => Outcome::Error(e),
        }
    }
}

/// The result that an outcome stands for: the pieces that are left, shown.
pub open spec fn result_of(o: Outcome) -> Result<Seq<char>, EvalErrorView> {
    match o {
        Outcome::Pieces(ps) => Ok(pieces_text(ps)),
        Outcome::Empty => Ok(Seq::empty()),
        Outcome::Error(e) => Err(e),
    }
}

/// The result of the operations `ops`, applied in order to the pieces `ps`.
pub open spec fn run(ps: Seq<PieceView>, ops: Seq<OperationView>) -> Result<
    Seq<char>,
    EvalErrorView,
> {
    result_of(outcome(ps, ops))
}

/// The position of the number with index `k` lies among the pieces, holds a
/// number, and has exactly `k` numbers before it.
pub proof fn lemma_number_position(ps: Seq<PieceView>, k: int)
    requires
        0 <= k < number_count(ps),
    ensures
        0 <= number_position(ps, k) < ps.len(),
        ps[number_position(ps, k)] is Num,
        number_count(ps.take(number_position(ps, k))) == k,
{
    lemma_position_from(ps, k, 0);
}

proof fn lemma_count_take(ps: Seq<PieceView>, at: int)
    requires
        0 <= at < ps.len(),
    ensures
        number_count(ps.take(at + 1)) == number_count(ps.take(at)) + if ps[at] is Num {
            1nat
        } else {
            0nat
        },
{
    assert(ps.take(at + 1).drop_last() =~= ps.take(at));
}

proof fn lemma_position_from(ps: Seq<PieceView>, k: int, at: int)
    requires
        0 <= at <= ps.len(),
        number_count(ps.take(at)) <= k < number_count(ps),
    ensures
        at <= position_from(ps, k, at) < ps.len(),
        ps[position_from(ps, k, at)] is Num,
        number_count(ps.take(position_from(ps, k, at))) == k,
    decreases ps.len() - at,
{
    if at == ps.len() {
        assert(ps.take(at) =~= ps);
    } else if ps[at] is Num && number_count(ps.take(at)) == k {
    } else {
        lemma_count_take(ps, at);
        lemma_position_from(ps, k, at + 1);
    }
}

/// How many of `pieces` are numbers.
fn count_numbers(pieces: &[ParamsPiece]) -> (count: usize)
    ensures
        count == number_count(pieces_view(pieces@)),
{
    let ghost views = pieces_view(pieces@);
    let mut count: usize = 0;
    let mut i: usize = 0;
    assert(views.take(0) =~= Seq::<PieceView>::empty());
    while i < pieces.len()
        invariant
            i <= pieces.len(),
            views == pieces_view(pieces@),
            count <= i,
            count == number_count(views.take(i as int)),
        decreases pieces.len() - i,
    {
        proof {
            lemma_count_take(views, i as int);
        }
        match &pieces[i] {
            ParamsPiece::Num(_) => {
                count += 1;
            },
            ParamsPiece::Str(_) => {},
        }
        i += 1;
    }
    assert(views.take(pieces.len() as int) =~= views);
    count
}

/// The factor that `argument` stands for.
fn factor(argument: &Argument) -> (by: Decimal)
    ensures
        by@ == argument_number(argument@),
{
    match argument {
        Argument::Integer(n) => Decimal::from_integer(*n),
        Argument::Number(d) => d.clone(),
    }
}

/// Multiplies the number with index `k` by `by`.
fn multiply_at(given: Vec<ParamsPiece>, k: usize, by: &Decimal) -> (r: Vec<ParamsPiece>)
    requires
        k < number_count(pieces_view(given@)),
    ensures
        pieces_view(r@) == multiply_one(
            pieces_view(given@),
            number_position(pieces_view(given@), k as int),
            by@,
        ),
{
    let ghost views = pieces_view(given@);
    let mut pieces = given;
    let mut seen: usize = 0;
    let mut i: usize = 0;
    assert(views.take(0) =~= Seq::<PieceView>::empty());
    while i < pieces.len()
        invariant
            i <= pieces.len(),
            views == pieces_view(given@),
            views == pieces_view(pieces@),
            k < number_count(views),
            seen <= i,
            seen == number_count(views.take(i as int)),
            seen <= k,
            position_from(views, k as int, i as int) == number_position(views, k as int),
        decreases pieces.len() - i,
    {
        proof {
            lemma_count_take(views, i as int);
            assert(views[i as int] == pieces@[i as int]@);
        }
        let found: Option<Decimal> = match &pieces[i] {
            ParamsPiece::Num(d) => {
                if seen == k {
                    Some(d.multiply(by))
                } else {
                    seen += 1;
                    None
                }
            },
            ParamsPiece::Str(_) => None,
        };
        match found {
            Some(number) => {
                assert(position_from(views, k as int, i as int) == i);
                pieces.set(i, ParamsPiece::Num(number));
                assert(pieces_view(pieces@) =~= multiply_one(views, i as int, by@));
                return pieces;
            },
            None => {},
        }
        i += 1;
    }
    proof {
        assert(views.take(pieces.len() as int) =~= views);
    }
    pieces
}

/// Multiplies every number by `by`.
fn multiply_every(pieces: Vec<ParamsPiece>, by: &Decimal) -> (r: Vec<ParamsPiece>)
    ensures
        pieces_view(r@) == multiply_all(pieces_view(pieces@), by@),
{
    let ghost views = pieces_view(pieces@);
    let mut pieces = pieces;
    let mut i: usize = 0;
    while i < pieces.len()
        invariant
            i <= pieces.len(),
            pieces@.len() == views.len(),
            forall|j: int| 0 <= j < i ==> (#[trigger] pieces@[j])@ == scaled(views[j], by@),
            forall|j: int| i <= j < pieces@.len() ==> (#[trigger] pieces@[j])@ == views[j],
        decreases pieces.len() - i,
    {
        let found: Option<Decimal> = match &pieces[i] {
            ParamsPiece::Num(d) => Some(d.multiply(by)),
            ParamsPiece::Str(_) => None,
        };
        match found {
            Some(number) => {
                pieces.set(i, ParamsPiece::Num(number));
            },
            None => {},
        }
        i += 1;
    }
    assert(pieces_view(pieces@) =~= multiply_all(views, by@));
    pieces
}

/// The pieces `n` times over.
fn repeat(pieces: &[ParamsPiece], n: usize) -> (r: Vec<ParamsPiece>)
    ensures
        pieces_view(r@) == repeated(pieces_view(pieces@), n as nat),
{
    let ghost views = pieces_view(pieces@);
    let mut out: Vec<ParamsPiece> = Vec::new();
    let mut round: usize = 0;
    assert(pieces_view(out@) =~= repeated(views, 0));
    while round < n
        invariant
            round <= n,
            views == pieces_view(pieces@),
            pieces_view(out@) == repeated(views, round as nat),
        decreases n - round,
    {
        let ghost before = pieces_view(out@);
        let mut i: usize = 0;
        assert(pieces_view(out@) =~= before + views.take(0));
        while i < pieces.len()
            invariant
                i <= pieces.len(),
                views == pieces_view(pieces@),
                pieces_view(out@) == before + views.take(i as int),
            decreases pieces.len() - i,
        {
            let ghost so_far = pieces_view(out@);
            let piece = pieces[i].clone();
            assert(piece@ == views[i as int]);
            out.push(piece);
            assert(pieces_view(out@) =~= so_far.push(views[i as int]));
            i += 1;
            assert(so_far.push(views[i - 1]) =~= before + views.take(i as int));
        }
        assert(views.take(pieces.len() as int) =~= views);
        round += 1;
    }
    out
}

/// The pieces of the subject turned round.
pub fn rev_params(params: &[ParamsPiece]) -> (r: Vec<ParamsPiece>)
    ensures
        pieces_view(r@) == turned(pieces_view(params@)),
{
    let mut shown: Vec<char> = Vec::new();
    write_pieces(params, &mut shown);
    assert(shown@ =~= pieces_text(pieces_view(params@)));
    let mut backwards: Vec<char> = Vec::new();
    let mut i: usize = shown.len();
    while i > 0
        invariant
            i <= shown.len(),
            backwards@ == shown@.reverse().take(shown.len() - i),
        decreases i,
    {
        i -= 1;
        backwards.push(shown[i]);
        assert(backwards@ =~= shown@.reverse().take(shown.len() - i));
    }
    assert(backwards@ =~= shown@.reverse());
    segment(&backwards)
}

/// What an operation has made of the pieces.
enum Applied {
    Pieces(Vec<ParamsPiece>),
    Empty,
    Error(EvalError),
}

impl View for Applied {
    type V = Outcome;

    closed spec fn view(&self) -> Outcome {
        match self {
            Applied::Pieces(ps) => Outcome::Pieces(pieces_view(ps@)),
            Applied::Empty => Outcome::Empty,
            Applied::Error(e) => Outcome::Error(e@),
        }
    }
}

/// Applies one operation to the pieces.
fn apply(pieces: Vec<ParamsPiece>, operation: &StringMultOperation) -> (r: Applied)
    ensures
        r@ == step(pieces_view(pieces@), operation@),
{
    match operation.operation_type {
        OperationType::Mult(index) => {
            let count = count_numbers(&pieces);
            let r: i128 = match index {
                None => 0,
                Some(i) => if i < 0 {
                    count as i128 + i as i128
                } else {
                    i as i128
                },
            };
            if 0 <= r && r < count as i128 {
                let by = factor(&operation.argument);
                Applied::Pieces(multiply_at(pieces, r as usize, &by))
            } else {
                let reported: usize = if r < 0 {
                    (r + usize::MAX as i128 + 1) as usize
                } else {
                    r as usize
                };
                Applied::Error(EvalError::IndexOutOfRange(reported, count))
            }
        },
        OperationType::MultAll => {
            let by = factor(&operation.argument);
            Applied::Pieces(multiply_every(pieces, &by))
        },
        OperationType::Duplicate => match &operation.argument {
            Argument::Number(_) => Applied::Error(EvalError::DuplicatingByFloat),
            Argument::Integer(n) => {
                let n: isize = *n;
                if n == 0 {
                    Applied::Empty
                } else if n > 0 {
                    Applied::Pieces(repeat(&pieces, n as usize))
                } else {
                    let times: usize = (-(n as i128)) as usize;
                    let round = rev_params(&pieces);
                    Applied::Pieces(repeat(&round, times))
                }
            },
        },
    }
}

/// Applies the operations of a command, in order, to the pieces of its
/// subject, and shows what is left.
pub fn evaluate_command(input: StringMultCommand) -> (r: Result<String, EvalError>)
    ensures
        result_view(r) == run(input@.params, input@.operations),
{
    let ghost whole = outcome(input@.params, input@.operations);
    let StringMultCommand { params, operations } = input;
    let ghost ops = operations_view(operations@);
    let mut pieces = params;
    let mut i: usize = 0;
    assert(ops.skip(0) =~= ops);
    while i < operations.len()
        invariant
            i <= operations.len(),
            ops == operations_view(operations@),
            whole == outcome(input@.params, input@.operations),
            outcome(pieces_view(pieces@), ops.skip(i as int)) == whole,
        decreases operations.len() - i,
    {
        let ghost before = pieces_view(pieces@);
        let applied = apply(pieces, &operations[i]);
        proof {
            let rest = ops.skip(i as int);
            assert(rest[0] == operations@[i as int]@);
            assert(rest.drop_first() =~= ops.skip(i + 1));
            assert(applied@ == step(before, rest[0]));
            assert(outcome(before, rest) == whole);
        }
        match applied {
            Applied::Pieces(next) => {
                pieces = next;
            },
            Applied::Empty => {
                return Ok(String::new());
            },
            Applied::Error(e) => {
                return Err(e);
            },
        }
        i += 1;
    }
    Ok(to_string(&pieces))
}

/// The result of what was read: that of the command, or the error that kept
/// it from being one.
pub open spec fn evaluated(c: Result<CommandView, ParseErrorView>) -> Result<
    Seq<char>,
    EvalErrorView,
> {
    match c {
        Ok(c) => run(c.params, c.operations),
        Err(e) => Err(EvalErrorView::ParseError(e)),
    }
}

/// The results of the list `s`: one for each of its items, in their order.
pub open spec fn results_of(s: Seq<char>) -> Result<
    Seq<Result<Seq<char>, EvalErrorView>>,
    EvalErrorView,
> {
    let items = items_from(s, 0);
    if items.len() == 0 {
        Err(EvalErrorView::NoCommandsList)
    } else {
        Ok(Seq::new(items.len(), |i: int| evaluated(item_value(s, items[i]))))
    }
}

/// What the results of a list hold.
pub open spec fn results_view(r: Result<Vec<Result<String, EvalError>>, EvalError>) -> Result<
    Seq<Result<Seq<char>, EvalErrorView>>,
    EvalErrorView,
> {
    match r {
        Ok(entries) => Ok(Seq::new(entries@.len(), |i: int| result_view(entries@[i]))),
        Err(e) => Err(e@),
    }
}

/// Evaluates what was read.
fn evaluate_parsed(parsed: Result<StringMultCommand, ParseError>) -> (r: Result<String, EvalError>)
    ensures
        result_view(r) == evaluated(parsed_view(parsed)),
{
    match parsed {
        Ok(c) => evaluate_command(c),
        Err(e) => Err(EvalError::ParseError(e)),
    }
}

/// Reads one command and evaluates it: the result is the subject after all
/// operations, shown without its quotes. A text that is no command gives the
/// error of [`parse_command`], inside `ParseError`.
pub fn evaluate(input: &str) -> (r: Result<String, EvalError>)
    ensures
        result_view(r) == evaluated(command_of(input@)),
{
    evaluate_parsed(parse_command(input))
}

/// Reads a list of commands and evaluates each: one result for each item of
/// the list, in the order of the text. No item has a part in the result of
/// another. Fails as a whole, with `NoCommandsList`, only where the text
/// holds no item.
pub fn evaluate_list(input: &str) -> (r: Result<Vec<Result<String, EvalError>>, EvalError>)
    ensures
        results_view(r) == results_of(input@),
{
    let chars = chars_of(input);
    let items = scan_items(&chars);
    if items.len() == 0 {
        return Err(EvalError::NoCommandsList);
    }
    let ghost spans = items_from(chars@, 0);
    let mut results: Vec<Result<String, EvalError>> = Vec::new();
    let mut i: usize = 0;
    while i < items.len()
        invariant
            i <= items.len(),
            spans == item_spans(items@),
            forall|k: int| 0 <= k < items@.len() ==> item_placed(chars@, (#[trigger] items@[k])@),
            results@.len() == i,
            forall|k: int|
                0 <= k < i ==> result_view(#[trigger] results@[k]) == evaluated(
                    item_value(chars@, spans[k]),
                ),
        decreases items.len() - i,
    {
        let result = evaluate_parsed(build_item(&chars, &items[i]));
        assert(spans[i as int] == items@[i as int]@);
        results.push(result);
        i += 1;
    }
    proof {
        let r = Ok::<Vec<Result<String, EvalError>>, EvalError>(results);
        assert(results_view(r)->Ok_0 =~= results_of(input@)->Ok_0);
    }
    Ok(results)
}

} // verus!
