//! A command taken out of a text is the same command.
//!
//! The items of a list are found by reading the whole text, but what an item
//! gives depends on its own characters only: the item, cut out and read as a
//! text of its own, gives the same.

use crate::evaluating::{evaluated, results_of};
use crate::grammar::{
    command_at, index_end, item_at, items_from, lemma_command_at, lemma_item_at,
    lemma_line_end, lemma_operation_at, lemma_operations_from, lemma_quote_from,
    lemma_separators_end, lemma_trial, line_end, operation_at, operations_from, operator_end,
    quote_from, separators_end, star_at, subject_end, trial, CommandSpan, ItemSpan,
    OperationSpan, Rule,
};
use crate::parsing::{
    argument_of, command_of, command_value, index_of, item_value, kind_of, list_of,
    operation_value, operations_value, ParseErrorView,
};
use crate::syntax::{
    blanks_end, digits_end, fraction_at, integer_end, is_blank, is_digit, is_line_break,
    lemma_blanks_end, lemma_digits_end, lemma_number_end, number_end, sign_end,
};
use vstd::prelude::*;

verus! {

/// The smaller of two positions.
pub open spec fn least(x: int, y: int) -> int {
    if x <= y {
        x
    } else {
        y
    }
}

/// The operation `op`, its positions moved back by `by`.
pub open spec fn moved(op: OperationSpan, by: int) -> OperationSpan {
    OperationSpan {
        operator: op.operator,
        start: op.start - by,
        operator_end: op.operator_end - by,
        argument: op.argument - by,
        end: op.end - by,
    }
}

/// The operations `ops`, their positions moved back by `by`.
pub open spec fn all_moved(ops: Seq<OperationSpan>, by: int) -> Seq<OperationSpan> {
    Seq::new(ops.len(), |i: int| moved(ops[i], by))
}

proof fn digits_in_a_part(s: Seq<char>, a: int, b: int, x: int)
    requires
        0 <= a <= x <= b <= s.len(),
    ensures
        digits_end(s.subrange(a, b), x - a) + a == least(digits_end(s, x), b),
    decreases b - x,
{
    let t = s.subrange(a, b);
    if x < b {
        assert(t[x - a] == s[x]);
        if is_digit(s[x]) {
            digits_in_a_part(s, a, b, x + 1);
        }
    } else {
        lemma_digits_end(s, x);
    }
}

proof fn blanks_in_a_part(s: Seq<char>, a: int, b: int, x: int)
    requires
        0 <= a <= x <= b <= s.len(),
    ensures
        blanks_end(s.subrange(a, b), x - a) + a == least(blanks_end(s, x), b),
    decreases b - x,
{
    let t = s.subrange(a, b);
    if x < b {
        assert(t[x - a] == s[x]);
        if is_blank(s[x]) {
            blanks_in_a_part(s, a, b, x + 1);
        }
    } else {
        lemma_blanks_end(s, x);
    }
}

proof fn quote_in_a_part(s: Seq<char>, a: int, b: int, x: int)
    requires
        0 <= a <= x <= b <= s.len(),
    ensures
        quote_from(s.subrange(a, b), x - a) + a == least(quote_from(s, x), b),
    decreases b - x,
{
    let t = s.subrange(a, b);
    if x < b {
        assert(t[x - a] == s[x]);
        if s[x] != '"' {
            quote_in_a_part(s, a, b, x + 1);
        }
    } else {
        lemma_quote_from(s, x);
    }
}

proof fn integer_in_a_part(s: Seq<char>, a: int, b: int, x: int)
    requires
        0 <= a <= x <= b <= s.len(),
    ensures
        integer_end(s.subrange(a, b), x - a) matches Some(e) ==> integer_end(s, x) matches Some(
            whole,
        ) && e + a == least(whole, b),
        integer_end(s, x) matches Some(whole) ==> (whole <= b ==> integer_end(
            s.subrange(a, b),
            x - a,
        ) == Some(whole - a)),
{
    let t = s.subrange(a, b);
    if x < b {
        assert(t[x - a] == s[x]);
        let first = sign_end(s, x);
        assert(sign_end(t, x - a) == first - a);
        digits_in_a_part(s, a, b, first);
        lemma_digits_end(s, first);
    } else {
        lemma_digits_end(s, sign_end(s, x));
    }
}

proof fn number_in_a_part(s: Seq<char>, a: int, b: int, x: int)
    requires
        0 <= a <= x <= b <= s.len(),
    ensures
        number_end(s.subrange(a, b), x - a) is Some ==> number_end(s, x) is Some,
        number_end(s, x) matches Some(e) ==> (e <= b ==> number_end(s.subrange(a, b), x - a)
            == Some(e - a)),
{
    let t = s.subrange(a, b);
    integer_in_a_part(s, a, b, x);
    lemma_number_end(s, x);
    lemma_number_end(t, x - a);
    match number_end(s, x) {
        Some(e) => {
            if e <= b {
                let whole = integer_end(s, x)->0;
                lemma_digits_end(s, sign_end(s, x));
                if fraction_at(s, whole) {
                    lemma_digits_end(s, whole + 1);
                    digits_in_a_part(s, a, b, whole + 1);
                    assert(t[whole - a] == s[whole]);
                } else {
                    if whole < b {
                        assert(t[whole - a] == s[whole]);
                        if s[whole] == '.' {
                            digits_in_a_part(s, a, b, whole + 1);
                        }
                    }
                }
            }
        },
        None => {},
    }
}

proof fn index_in_a_part(s: Seq<char>, a: int, b: int, x: int)
    requires
        0 <= a <= x <= b <= s.len(),
    ensures
        index_end(s.subrange(a, b), x - a) matches Some(e) ==> index_end(s, x) == Some(e + a),
        index_end(s, x) matches Some(e) ==> (e <= b ==> index_end(s.subrange(a, b), x - a)
            == Some(e - a)),
{
    let t = s.subrange(a, b);
    if x < b {
        assert(t[x - a] == s[x]);
        integer_in_a_part(s, a, b, x + 1);
        lemma_number_end(s, x + 1);
        lemma_number_end(t, x + 1 - a);
        match integer_end(t, x + 1 - a) {
            Some(e) => {
                if e < t.len() {
                    assert(t[e] == s[e + a]);
                }
            },
            None => {},
        }
        match integer_end(s, x + 1) {
            Some(e) => {
                if e < b {
                    assert(t[e - a] == s[e]);
                }
            },
            None => {},
        }
    }
}

proof fn stars_in_a_part(s: Seq<char>, a: int, b: int, x: int)
    requires
        0 <= a <= x <= b <= s.len(),
    ensures
        star_at(s.subrange(a, b), x - a) == (x < b && star_at(s, x)),
{
    if x < b {
        assert(s.subrange(a, b)[x - a] == s[x]);
    }
}

/// What a form finds in a part of the text, it finds in the text.
proof fn trial_in_the_whole(rule: Rule, s: Seq<char>, a: int, b: int, x: int)
    requires
        0 <= a <= x <= b <= s.len(),
        trial(rule, s.subrange(a, b), x - a) is Some,
    ensures
        trial(rule, s, x) is Some,
{
    let t = s.subrange(a, b);
    lemma_trial(rule, t, x - a);
    let found = trial(rule, t, x - a)->0;
    stars_in_a_part(s, a, b, x);
    stars_in_a_part(s, a, b, x + 1);
    if x + 2 <= b {
        stars_in_a_part(s, a, b, x + 2);
    }
    index_in_a_part(s, a, b, x + 1);
    let reached = found.operator_end + a;
    assert(operator_end(rule, s, x) == Some(reached)) by {
        if rule == Rule::mult && index_end(t, x + 1 - a) is None {
            lemma_blanks_end(t, x + 1 - a);
            lemma_number_end(t, found.argument);
            assert(t[x + 1 - a] == s[x + 1]);
            if found.argument == x + 1 - a {
                lemma_digits_end(t, sign_end(t, found.argument));
            }
        }
    }
    blanks_in_a_part(s, a, b, reached);
    lemma_number_end(t, found.argument);
    number_in_a_part(s, a, b, found.argument + a);
}

/// What a form finds in the text, it finds in every part that holds it.
proof fn trial_in_a_part(rule: Rule, s: Seq<char>, a: int, b: int, x: int)
    requires
        0 <= a <= x <= b <= s.len(),
        trial(rule, s, x) matches Some(op) && op.end <= b,
    ensures
        trial(rule, s.subrange(a, b), x - a) == Some(moved(trial(rule, s, x)->0, a)),
{
    let t = s.subrange(a, b);
    lemma_trial(rule, s, x);
    let op = trial(rule, s, x)->0;
    stars_in_a_part(s, a, b, x);
    stars_in_a_part(s, a, b, x + 1);
    stars_in_a_part(s, a, b, x + 2);
    index_in_a_part(s, a, b, x + 1);
    assert(operator_end(rule, t, x - a) == Some(op.operator_end - a));
    blanks_in_a_part(s, a, b, op.operator_end);
    number_in_a_part(s, a, b, op.argument);
}

/// The operation at a position is the same in every part that holds it.
proof fn operation_in_a_part(s: Seq<char>, a: int, b: int, x: int)
    requires
        0 <= a <= x <= b <= s.len(),
        operation_at(s, x) matches Some(op) && op.end <= b,
    ensures
        operation_at(s.subrange(a, b), x - a) == Some(moved(operation_at(s, x)->0, a)),
{
    let t = s.subrange(a, b);
    let op = operation_at(s, x)->0;
    if trial(Rule::mult, s, x) is Some {
        trial_in_a_part(Rule::mult, s, a, b, x);
    } else {
        if trial(Rule::mult, t, x - a) is Some {
            trial_in_the_whole(Rule::mult, s, a, b, x);
        }
        if trial(Rule::multAll, s, x) is Some {
            trial_in_a_part(Rule::multAll, s, a, b, x);
        } else {
            if trial(Rule::multAll, t, x - a) is Some {
                trial_in_the_whole(Rule::multAll, s, a, b, x);
            }
            trial_in_a_part(Rule::duplicate, s, a, b, x);
        }
    }
}

/// An operation in a part of the text is an operation in the text.
proof fn operation_in_the_whole(s: Seq<char>, a: int, b: int, x: int)
    requires
        0 <= a <= x <= b <= s.len(),
        operation_at(s.subrange(a, b), x - a) is Some,
    ensures
        operation_at(s, x) is Some,
{
    let t = s.subrange(a, b);
    if trial(Rule::mult, t, x - a) is Some {
        trial_in_the_whole(Rule::mult, s, a, b, x);
    } else if trial(Rule::multAll, t, x - a) is Some {
        trial_in_the_whole(Rule::multAll, s, a, b, x);
    } else {
        trial_in_the_whole(Rule::duplicate, s, a, b, x);
    }
}

/// The operations that end where a part ends are the operations of the part.
proof fn operations_in_a_part(s: Seq<char>, a: int, b: int, x: int)
    requires
        0 <= a <= x <= b <= s.len(),
        operations_from(s, x).len() > 0,
        operations_from(s, x).last().end == b,
    ensures
        operations_from(s.subrange(a, b), x - a) == all_moved(operations_from(s, x), a),
    decreases s.len() - x,
{
    let t = s.subrange(a, b);
    let ops = operations_from(s, x);
    let y = blanks_end(s, x);
    lemma_blanks_end(s, x);
    lemma_operation_at(s, y);
    let op = operation_at(s, y)->0;
    let rest = operations_from(s, op.end);
    assert(ops == seq![op] + rest);
    lemma_operations_from(s, op.end);
    if rest.len() > 0 {
        assert(ops.last() == rest.last());
    } else {
        assert(ops.last() == op);
    }
    blanks_in_a_part(s, a, b, x);
    operation_in_a_part(s, a, b, y);
    if rest.len() > 0 {
        operations_in_a_part(s, a, b, op.end);
        assert(operations_from(t, x - a) =~= all_moved(ops, a)) by {
            assert(operations_from(t, x - a) == seq![moved(op, a)] + all_moved(rest, a));
        }
    } else {
        assert(op.end == b);
        assert(blanks_end(t, t.len() as int) == t.len());
        assert(operation_at(t, t.len() as int) is None);
        assert(operations_from(t, op.end - a) =~= Seq::<OperationSpan>::empty());
        assert(operations_from(t, x - a) =~= all_moved(ops, a)) by {
            assert(operations_from(t, x - a) == seq![moved(op, a)] + Seq::<OperationSpan>::empty());
        }
    }
}

/// The command `c`, its positions moved back by `by`.
pub open spec fn command_moved(c: CommandSpan, by: int) -> CommandSpan {
    CommandSpan {
        start: c.start - by,
        subject_end: c.subject_end - by,
        operations: all_moved(c.operations, by),
        end: c.end - by,
    }
}

/// A command, cut out of the text, is found in what was cut out.
proof fn command_in_its_part(s: Seq<char>, a: int)
    requires
        0 <= a <= s.len(),
        command_at(s, a) is Some,
    ensures
        command_at(s.subrange(a, command_at(s, a)->0.end), 0) == Some(
            command_moved(command_at(s, a)->0, a),
        ),
{
    lemma_command_at(s, a);
    let c = command_at(s, a)->0;
    let t = s.subrange(a, c.end);
    assert(t[0] == s[a]);
    quote_in_a_part(s, a, c.end, a + 1);
    assert(subject_end(t, 0) == Some(c.subject_end - a));
    operations_in_a_part(s, a, c.end, c.subject_end);
    assert(all_moved(c.operations, a).last() == moved(c.operations.last(), a));
}

/// A command in a part of the text is a command in the text.
proof fn command_in_the_whole(s: Seq<char>, a: int, b: int)
    requires
        0 <= a <= b <= s.len(),
        command_at(s.subrange(a, b), 0) is Some,
    ensures
        command_at(s, a) is Some,
{
    let t = s.subrange(a, b);
    lemma_command_at(t, 0);
    let c = command_at(t, 0)->0;
    assert(t[0] == s[a]);
    quote_in_a_part(s, a, b, a + 1);
    assert(subject_end(s, a) == Some(c.subject_end + a));
    let y = blanks_end(t, c.subject_end);
    lemma_blanks_end(t, c.subject_end);
    lemma_operation_at(t, y);
    blanks_in_a_part(s, a, b, c.subject_end + a);
    operation_in_the_whole(s, a, b, y + a);
    lemma_operation_at(s, y + a);
}

proof fn operation_reads_the_same(s: Seq<char>, a: int, b: int, op: OperationSpan)
    requires
        0 <= a <= op.start,
        op.end <= b <= s.len(),
        trial(op.operator, s, op.start) == Some(op),
    ensures
        operation_value(s.subrange(a, b), moved(op, a)) == operation_value(s, op),
{
    let t = s.subrange(a, b);
    let m = moved(op, a);
    lemma_trial(op.operator, s, op.start);
    assert(t.subrange(m.argument, m.end) =~= s.subrange(op.argument, op.end));
    if op.operator == Rule::mult && op.operator_end > op.start + 1 {
        lemma_number_end(s, op.start + 2);
        assert(t.subrange(m.start + 2, m.operator_end - 1) =~= s.subrange(
            op.start + 2,
            op.operator_end - 1,
        ));
        assert(index_of(t, m) == index_of(s, op));
    }
    assert(kind_of(t, m) == kind_of(s, op));
    integer_in_a_part(s, a, b, op.argument);
    lemma_number_end(s, op.argument);
    assert((integer_end(t, m.argument) == Some(m.end)) == (integer_end(s, op.argument) == Some(
        op.end,
    ))) by {
        lemma_digits_end(s, sign_end(s, op.argument));
        if fraction_at(s, integer_end(s, op.argument)->0) {
            lemma_digits_end(s, integer_end(s, op.argument)->0 + 1);
        }
    }
    assert(argument_of(t, m) == argument_of(s, op));
}

proof fn operations_read_the_same(s: Seq<char>, a: int, b: int, ops: Seq<OperationSpan>)
    requires
        0 <= a <= b <= s.len(),
        forall|i: int|
            0 <= i < ops.len() ==> a <= (#[trigger] ops[i]).start && ops[i].end <= b && trial(
                ops[i].operator,
                s,
                ops[i].start,
            ) == Some(ops[i]),
    ensures
        operations_value(s.subrange(a, b), all_moved(ops, a)) == operations_value(s, ops),
    decreases ops.len(),
{
    if ops.len() > 0 {
        let init = ops.drop_last();
        assert forall|i: int| 0 <= i < init.len() implies a <= (#[trigger] init[i]).start
            && init[i].end <= b && trial(init[i].operator, s, init[i].start) == Some(init[i]) by {
            assert(init[i] == ops[i]);
        }
        operations_read_the_same(s, a, b, init);
        assert(all_moved(ops, a).drop_last() =~= all_moved(init, a));
        assert(all_moved(ops, a).last() == moved(ops.last(), a));
        assert(ops.last() == ops[ops.len() - 1]);
        operation_reads_the_same(s, a, b, ops.last());
    } else {
        assert(all_moved(ops, a) =~= Seq::<OperationSpan>::empty());
    }
}

/// A command of a text, cut out and read as a text of its own, is the same
/// command.
pub proof fn a_command_reads_the_same_alone(s: Seq<char>, a: int)
    requires
        0 <= a <= s.len(),
        command_at(s, a) is Some,
    ensures
        command_of(s.subrange(a, command_at(s, a)->0.end)) == command_value(
            s,
            command_at(s, a)->0,
        ),
{
    lemma_command_at(s, a);
    let c = command_at(s, a)->0;
    let t = s.subrange(a, c.end);
    command_in_its_part(s, a);
    assert(t[0] == s[a]);
    assert(blanks_end(t, 0) == 0);
    assert(blanks_end(t, t.len() as int) == t.len());
    lemma_operations_from(s, c.subject_end);
    assert forall|i: int| 0 <= i < c.operations.len() implies a <= (
    #[trigger] c.operations[i]).start && c.operations[i].end <= c.end && trial(
        c.operations[i].operator,
        s,
        c.operations[i].start,
    ) == Some(c.operations[i]) by {
        operations_end_in_order(s, c.subject_end, i);
    }
    operations_read_the_same(s, a, c.end, c.operations);
    let m = command_moved(c, a);
    assert(t.subrange(m.start + 1, m.subject_end - 1) =~= s.subrange(
        c.start + 1,
        c.subject_end - 1,
    ));
}

/// No operation ends behind the last one.
proof fn operations_end_in_order(s: Seq<char>, at: int, i: int)
    requires
        0 <= at <= s.len(),
        0 <= i < operations_from(s, at).len(),
    ensures
        operations_from(s, at)[i].end <= operations_from(s, at).last().end,
    decreases s.len() - at,
{
    lemma_blanks_end(s, at);
    lemma_operation_at(s, blanks_end(s, at));
    let op = operation_at(s, blanks_end(s, at))->0;
    let rest = operations_from(s, op.end);
    let all = operations_from(s, at);
    assert(all == seq![op] + rest);
    lemma_operations_from(s, op.end);
    if rest.len() > 0 {
        assert(all.last() == rest.last());
        if i > 0 {
            assert(all[i] == rest[i - 1]);
            operations_end_in_order(s, op.end, i - 1);
        }
    }
}

/// What stands in the place of a command, cut out and read as a text of its
/// own, is no command either.
pub proof fn a_wrong_item_reads_wrong_alone(s: Seq<char>, a: int)
    requires
        0 <= a < s.len(),
        !is_blank(s[a]),
        command_at(s, a) is None,
    ensures
        command_of(s.subrange(a, line_end(s, a))) == Err::<
            crate::command::CommandView,
            ParseErrorView,
        >(ParseErrorView::WrongCommand(s.subrange(a, line_end(s, a)))),
{
    lemma_line_end(s, a);
    let b = line_end(s, a);
    let t = s.subrange(a, b);
    if a < b {
        assert(t[0] == s[a]);
    }
    assert(blanks_end(t, 0) == 0);
    if command_at(t, 0) is Some {
        command_in_the_whole(s, a, b);
    }
}

/// The text of an item.
pub open spec fn item_text(s: Seq<char>, item: ItemSpan) -> Seq<char> {
    s.subrange(item.start(), item.end())
}

/// Every item of a list gives what its own text gives when it is read as a
/// command: no item has a part in what another gives.
pub proof fn an_item_reads_the_same_alone(s: Seq<char>, i: int)
    requires
        0 <= i < items_from(s, 0).len(),
    ensures
        item_value(s, items_from(s, 0)[i]) == command_of(item_text(s, items_from(s, 0)[i])),
{
    items_stand_where_they_start(s, 0, i);
    let item = items_from(s, 0)[i];
    let a = item.start();
    match item {
        ItemSpan::Command(c) => {
            lemma_command_at(s, a);
            a_command_reads_the_same_alone(s, a);
        },
        ItemSpan::Wrong { start, end } => {
            a_wrong_item_reads_wrong_alone(s, a);
        },
    }
}

/// Every item is the item at its start, and starts at a character that is
/// neither a blank nor a line break.
proof fn items_stand_where_they_start(s: Seq<char>, at: int, i: int)
    requires
        0 <= at <= s.len(),
        0 <= i < items_from(s, at).len(),
    ensures
        ({
            let item = items_from(s, at)[i];
            &&& 0 <= item.start() < s.len()
            &&& !is_blank(s[item.start()])
            &&& !is_line_break(s[item.start()])
            &&& item == item_at(s, item.start())
        }),
    decreases s.len() - at,
{
    lemma_separators_end(s, at);
    let start = separators_end(s, at);
    lemma_item_at(s, start);
    let first = item_at(s, start);
    let rest = items_from(s, first.end());
    assert(items_from(s, at) == seq![first] + rest);
    if i > 0 {
        assert(items_from(s, at)[i] == rest[i - 1]);
        items_stand_where_they_start(s, first.end(), i - 1);
    }
}

/// An entry of a parsed list is what its item gives when the item is parsed
/// alone.
pub proof fn an_entry_is_that_of_its_item(s: Seq<char>, i: int)
    requires
        0 <= i < items_from(s, 0).len(),
    ensures
        list_of(s) matches Ok(entries) && entries.len() == items_from(s, 0).len() && entries[i]
            == command_of(item_text(s, items_from(s, 0)[i])),
{
    an_item_reads_the_same_alone(s, i);
}

/// A result of a list is the result of its item evaluated alone.
pub proof fn a_result_is_that_of_its_item(s: Seq<char>, i: int)
    requires
        0 <= i < items_from(s, 0).len(),
    ensures
        results_of(s) matches Ok(results) && results.len() == items_from(s, 0).len() && results[i]
            == evaluated(command_of(item_text(s, items_from(s, 0)[i]))),
{
    an_item_reads_the_same_alone(s, i);
}

} // verus!
