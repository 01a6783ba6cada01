//! The data model: a subject cut into pieces, and the operations on it.

use crate::decimal::{literal_text, number_text, Decimal, DecimalView};
use crate::text::{append_str, string_of};
use vstd::prelude::*;

verus! {

/// A piece of a subject: a number, or the text between two numbers.
#[derive(Debug, PartialEq)]
pub enum ParamsPiece {
    /// A number.
    Num(Decimal),
    /// Not a number.
    Str(String),
}

/// What a [`ParamsPiece`] holds.
pub enum PieceView {
    Num(DecimalView),
    Str(Seq<char>),
}

impl View for ParamsPiece {
    type V = PieceView;

    open spec fn view(&self) -> PieceView {
        match self {
            ParamsPiece::Num(d) => PieceView::Num(d@),
            ParamsPiece::Str(s) => PieceView::Str(s@),
        }
    }
}

/// The kind of an operation.
#[derive(Debug, PartialEq, Eq, Clone, Copy)]
pub enum OperationType {
    /// Multiply the number at the given index by the argument.
    Mult(Option<isize>),
    /// Multiply all numbers by the argument.
    MultAll,
    /// Repeat the subject as often as the argument says.
    Duplicate,
}

/// The argument of an operation: a whole number or a decimal number, never
/// both.
#[derive(Debug, PartialEq)]
pub enum Argument {
    Integer(isize),
    Number(Decimal),
}

/// What an [`Argument`] holds.
pub enum ArgumentView {
    Integer(int),
    Number(DecimalView),
}

impl View for Argument {
    type V = ArgumentView;

    open spec fn view(&self) -> ArgumentView {
        match self {
            Argument::Integer(n) => ArgumentView::Integer(*n as int),
            Argument::Number(d) => ArgumentView::Number(d@),
        }
    }
}

/// An operation on a subject.
#[derive(Debug, PartialEq)]
pub struct StringMultOperation {
    /// The kind of the operation.
    pub operation_type: OperationType,
    /// The argument of the operation.
    pub argument: Argument,
}

/// What a [`StringMultOperation`] holds.
pub struct OperationView {
    pub operation_type: OperationType,
    pub argument: ArgumentView,
}

impl View for StringMultOperation {
    type V = OperationView;

    open spec fn view(&self) -> OperationView {
        OperationView { operation_type: self.operation_type, argument: self.argument@ }
    }
}

/// A command: the pieces of its subject and the operations to perform on
/// them, in order.
#[derive(Debug, PartialEq)]
pub struct StringMultCommand {
    /// The subject to operate on.
    pub params: Vec<ParamsPiece>,
    /// The operations to perform.
    pub operations: Vec<StringMultOperation>,
}

/// What a [`StringMultCommand`] holds.
pub struct CommandView {
    pub params: Seq<PieceView>,
    pub operations: Seq<OperationView>,
}

/// The views of the pieces `ps`.
pub open spec fn pieces_view(ps: Seq<ParamsPiece>) -> Seq<PieceView> {
    Seq::new(ps.len(), |i: int| ps[i]@)
}

/// The views of the operations `ops`.
pub open spec fn operations_view(ops: Seq<StringMultOperation>) -> Seq<OperationView> {
    Seq::new(ops.len(), |i: int| ops[i]@)
}

impl View for StringMultCommand {
    type V = CommandView;

    open spec fn view(&self) -> CommandView {
        CommandView {
            params: pieces_view(self.params@),
            operations: operations_view(self.operations@),
        }
    }
}

/// How a piece is shown: a number at eight decimal places without the zeros
/// at its end, a text as it is.
pub open spec fn piece_text(p: PieceView) -> Seq<char> {
    match p {
        PieceView::Num(v) => number_text(v),
        PieceView::Str(s) => s,
    }
}

/// How pieces are shown: one after the other, with nothing between them.
pub open spec fn pieces_text(ps: Seq<PieceView>) -> Seq<char>
    decreases ps.len(),
{
    if ps.len() == 0 {
        Seq::empty()
    } else {
        pieces_text(ps.drop_last()) + piece_text(ps.last())
    }
}

/// A piece as the subject wrote it: a number keeps every digit.
pub open spec fn piece_literal(p: PieceView) -> Seq<char> {
    match p {
        PieceView::Num(v) => literal_text(v),
        PieceView::Str(s) => s,
    }
}

/// Pieces as the subject wrote them.
pub open spec fn pieces_literal(ps: Seq<PieceView>) -> Seq<char>
    decreases ps.len(),
{
    if ps.len() == 0 {
        Seq::empty()
    } else {
        pieces_literal(ps.drop_last()) + piece_literal(ps.last())
    }
}

/// Pieces that follow each other are shown one after the other.
pub proof fn lemma_pieces_text_concat(a: Seq<PieceView>, b: Seq<PieceView>)
    ensures
        pieces_text(a + b) == pieces_text(a) + pieces_text(b),
    decreases b.len(),
{
    if b.len() == 0 {
        assert(a + b =~= a);
        assert(pieces_text(a) + pieces_text(b) =~= pieces_text(a));
    } else {
        assert((a + b).drop_last() =~= a + b.drop_last());
        assert((a + b).last() == b.last());
        lemma_pieces_text_concat(a, b.drop_last());
        assert(pieces_text(a + b) =~= pieces_text(a) + pieces_text(b));
    }
}

/// Pieces that follow each other are written one after the other.
pub proof fn lemma_pieces_literal_concat(a: Seq<PieceView>, b: Seq<PieceView>)
    ensures
        pieces_literal(a + b) == pieces_literal(a) + pieces_literal(b),
    decreases b.len(),
{
    if b.len() == 0 {
        assert(a + b =~= a);
        assert(pieces_literal(a) + pieces_literal(b) =~= pieces_literal(a));
    } else {
        assert((a + b).drop_last() =~= a + b.drop_last());
        assert((a + b).last() == b.last());
        lemma_pieces_literal_concat(a, b.drop_last());
        assert(pieces_literal(a + b) =~= pieces_literal(a) + pieces_literal(b));
    }
}

impl Clone for ParamsPiece {
    fn clone(&self) -> (r: ParamsPiece)
        ensures
            r@ == self@,
    {
        match self {
            ParamsPiece::Num(d) => ParamsPiece::Num(d.clone()),
            ParamsPiece::Str(s) => ParamsPiece::Str(s.clone()),
        }
    }
}

impl Clone for Argument {
    fn clone(&self) -> (r: Argument)
        ensures
            r@ == self@,
    {
        match self {
            Argument::Integer(n) => Argument::Integer(*n),
            Argument::Number(d) => Argument::Number(d.clone()),
        }
    }
}

impl Clone for StringMultOperation {
    fn clone(&self) -> (r: StringMultOperation)
        ensures
            r@ == self@,
    {
        StringMultOperation {
            operation_type: self.operation_type,
            argument: self.argument.clone(),
        }
    }
}

impl Clone for StringMultCommand {
    fn clone(&self) -> (r: StringMultCommand)
        ensures
            r@ == self@,
    {
        let mut params: Vec<ParamsPiece> = Vec::new();
        let mut i: usize = 0;
        assert(pieces_view(params@) =~= pieces_view(self.params@).take(0));
        while i < self.params.len()
            invariant
                i <= self.params.len(),
                pieces_view(params@) == pieces_view(self.params@).take(i as int),
            decreases self.params.len() - i,
        {
            let ghost so_far = pieces_view(params@);
            let piece = self.params[i].clone();
            assert(piece@ == pieces_view(self.params@)[i as int]);
            params.push(piece);
            assert(pieces_view(params@) =~= so_far.push(piece@));
            i += 1;
            assert(so_far.push(piece@) =~= pieces_view(self.params@).take(i as int));
        }
        let mut operations: Vec<StringMultOperation> = Vec::new();
        let mut j: usize = 0;
        assert(operations_view(operations@) =~= operations_view(self.operations@).take(0));
        while j < self.operations.len()
            invariant
                j <= self.operations.len(),
                operations_view(operations@) == operations_view(self.operations@).take(j as int),
            decreases self.operations.len() - j,
        {
            let ghost so_far = operations_view(operations@);
            let operation = self.operations[j].clone();
            assert(operation@ == operations_view(self.operations@)[j as int]);
            operations.push(operation);
            assert(operations_view(operations@) =~= so_far.push(operation@));
            j += 1;
            assert(so_far.push(operation@) =~= operations_view(self.operations@).take(j as int));
        }
        assert(pieces_view(params@) =~= pieces_view(self.params@));
        assert(operations_view(operations@) =~= operations_view(self.operations@));
        StringMultCommand { params, operations }
    }
}

/// Appends to `out` how the pieces `parts` are shown.
pub fn write_pieces(parts: &[ParamsPiece], out: &mut Vec<char>)
    ensures
        final(out)@ == old(out)@ + pieces_text(pieces_view(parts@)),
{
    let ghost before = out@;
    let ghost views = pieces_view(parts@);
    let mut i: usize = 0;
    assert(views.take(0) =~= Seq::<PieceView>::empty());
    assert(out@ =~= before + pieces_text(views.take(0)));
    while i < parts.len()
        invariant
            i <= parts.len(),
            views == pieces_view(parts@),
            out@ == before + pieces_text(views.take(i as int)),
        decreases parts.len() - i,
    {
        let ghost so_far = out@;
        match &parts[i] {
            ParamsPiece::Num(d) => {
                d.write_text(out);
            },
            ParamsPiece::Str(s) => {
                append_str(out, s.as_str());
            },
        }
        proof {
            assert(out@ == so_far + piece_text(views[i as int]));
            let next = views.take(i + 1);
            assert(next.drop_last() =~= views.take(i as int));
            assert(next.last() == views[i as int]);
            assert(out@ =~= before + pieces_text(next));
        }
        i += 1;
    }
    assert(views.take(parts.len() as int) =~= views);
}

/// Shows the pieces `parts` as one string.
pub fn to_string(parts: &[ParamsPiece]) -> (s: String)
    ensures
        s@ == pieces_text(pieces_view(parts@)),
{
    let mut out: Vec<char> = Vec::new();
    write_pieces(parts, &mut out);
    assert(out@ =~= pieces_text(pieces_view(parts@)));
    assert(out@.subrange(0, out.len() as int) =~= out@);
    string_of(&out, 0, out.len())
}

} // verus!
