use string_mult::{
    evaluate, evaluate_command, evaluate_list, parse_command, parse_list, parse_params,
    rev_params, to_string, Argument, Decimal, EvalError, OperationType, ParamsPiece, ParseError,
    Rule, StringMultCommand, StringMultGrammar, StringMultOperation,
};

fn number(text: &str) -> ParamsPiece {
    ParamsPiece::Num(Decimal::parse(text).expect("a number"))
}

fn text(text: &str) -> ParamsPiece {
    ParamsPiece::Str(text.to_string())
}

fn literal(pieces: &[ParamsPiece]) -> String {
    let mut joined = String::new();
    for piece in pieces {
        match piece {
            ParamsPiece::Num(n) => joined.push_str(&n.to_literal()),
            ParamsPiece::Str(s) => joined.push_str(s),
        }
    }
    joined
}

fn operation(operation_type: OperationType, argument: Argument) -> StringMultOperation {
    StringMultOperation { operation_type, argument }
}

#[test]
fn subject_is_cut_at_numbers() {
    let pieces = parse_params("\"3 abc -4def,--5\"").unwrap();
    assert_eq!(
        pieces,
        vec![number("3"), text(" abc "), number("-4"), text("def,-"), number("-5")]
    );
}

#[test]
fn numbers_may_adjoin_but_texts_never_do() {
    let pieces = parse_params("\"1-2-3.5.5-.-\"").unwrap();
    assert_eq!(
        pieces,
        vec![number("1"), number("-2"), number("-3.5"), text("."), number("5"), text("-.-")]
    );
    for pair in pieces.windows(2) {
        let both_texts =
            matches!(pair[0], ParamsPiece::Str(_)) && matches!(pair[1], ParamsPiece::Str(_));
        assert!(!both_texts);
    }
}

#[test]
fn a_lone_sign_is_text() {
    assert_eq!(parse_params("\"-\"").unwrap(), vec![text("-")]);
    assert_eq!(parse_params("\"--5\"").unwrap(), vec![text("-"), number("-5")]);
    assert_eq!(parse_params("\"5.\"").unwrap(), vec![number("5"), text(".")]);
    assert_eq!(parse_params("\".5\"").unwrap(), vec![text("."), number("5")]);
}

#[test]
fn an_empty_subject_has_no_pieces() {
    assert_eq!(parse_params("\"\"").unwrap(), vec![]);
    assert_eq!(evaluate("\"\" ***3").unwrap(), "");
}

#[test]
fn pieces_join_to_the_subject() {
    for subject in ["3 abc -4def,--5", "007.50 and -0", "1-2-3.5.5-.-", "", "no numbers", "42"] {
        let pieces = parse_params(&format!("\"{}\"", subject)).unwrap();
        assert_eq!(literal(&pieces), subject);
    }
}

#[test]
fn params_need_a_subject() {
    assert_eq!(
        parse_params("abc"),
        Err(ParseError::WrongCommand("abc".to_string()))
    );
    assert_eq!(
        parse_params("\"abc"),
        Err(ParseError::WrongCommand("\"abc".to_string()))
    );
    assert_eq!(parse_params("\"1a\" rest").unwrap(), vec![number("1"), text("a")]);
}

#[test]
fn pieces_are_shown_in_order() {
    assert_eq!(to_string(&vec![number("1.50"), text("x"), number("007")]), "1.5x7");
    assert_eq!(to_string(&vec![]), "");
}

#[test]
fn multiplying_by_one_changes_nothing() {
    assert_eq!(evaluate("\"3packs, 10mg/l\" **1").unwrap(), "3packs, 10mg/l");
    assert_eq!(evaluate("\"3packs, 10mg/l\" *[0] 1").unwrap(), "3packs, 10mg/l");
    assert_eq!(evaluate("\"3packs, 10mg/l\" * 1").unwrap(), "3packs, 10mg/l");
    assert_eq!(evaluate("\"0.5 and -7.25\" **1").unwrap(), "0.5 and -7.25");
}

#[test]
fn duplicating_by_zero_gives_the_empty_string() {
    assert_eq!(evaluate("\"a1\" ***0").unwrap(), "");
    assert_eq!(evaluate("\"a1\" *2 ***3 ***0").unwrap(), "");
    assert_eq!(evaluate("\"a1\" ***0 *[7] 3").unwrap(), "");
    assert_eq!(evaluate("\"a1\" ***0 ***2.5").unwrap(), "");
    assert_eq!(evaluate("\"a1\" ***-0").unwrap(), "");
}

#[test]
fn a_failure_before_a_duplication_by_zero_stays_a_failure() {
    assert_eq!(evaluate("\"a\" *2 ***0"), Err(EvalError::IndexOutOfRange(0, 0)));
}

#[test]
fn a_negative_count_reads_the_subject_backwards() {
    assert_eq!(evaluate("\"ab12\" ***-2").unwrap(), "21ba21ba");
    assert_eq!(evaluate("\"ab12\" ***-2").unwrap(), evaluate("\"21ba\" ***2").unwrap());
    let forwards = evaluate("\"ab12\" ***2").unwrap();
    assert_eq!(
        evaluate("\"ab12\" ***-2").unwrap(),
        forwards.chars().rev().collect::<String>()
    );
}

#[test]
fn turning_round_finds_new_numbers() {
    assert_eq!(evaluate("\"1.5\" ***-1").unwrap(), "5.1");
    assert_eq!(evaluate("\"10\" ***-1").unwrap(), "1");
    assert_eq!(evaluate("\"1.0\" ***-1").unwrap(), "1");
    assert_eq!(evaluate("\"0.1\" ***1").unwrap(), "0.1");
    assert_eq!(evaluate("\"-5\" ***-1").unwrap(), "5-");
    assert_eq!(evaluate("\"1-\" ***-1 *2").unwrap(), "-2");
    assert_eq!(evaluate("\"a1 2b\" ***-1 *[0] 10").unwrap(), "b20 1a");
}

#[test]
fn turned_pieces_are_cut_anew() {
    let turned = rev_params(&vec![number("12"), text("ab"), number("3.5")]);
    assert_eq!(turned, vec![number("5.3"), text("ba"), number("21")]);
    let quoted = rev_params(&vec![text("a\"1")]);
    assert_eq!(quoted, vec![number("1"), text("\"a")]);
}

#[test]
fn the_last_index_is_the_last_number() {
    assert_eq!(evaluate("\"1 2 3\" *[-1] 5").unwrap(), "1 2 15");
    assert_eq!(evaluate("\"1 2 3 end\" *[-1] 5").unwrap(), "1 2 15 end");
    assert_eq!(evaluate("\"1 2 3\" *[-3] 5").unwrap(), "5 2 3");
    assert_eq!(evaluate("\"1 2 3\" *[2] 5").unwrap(), "1 2 15");
}

#[test]
fn an_index_beyond_the_numbers_fails() {
    assert_eq!(evaluate("\"1 2 3\" *[3] 5"), Err(EvalError::IndexOutOfRange(3, 3)));
    assert_eq!(evaluate("\"4packs\" *[2]2"), Err(EvalError::IndexOutOfRange(2, 1)));
    assert_eq!(evaluate("\"none\" *2"), Err(EvalError::IndexOutOfRange(0, 0)));
}

#[test]
fn a_negative_index_beyond_the_numbers_wraps_round() {
    assert_eq!(evaluate("\"1\" *[-2] 5"), Err(EvalError::IndexOutOfRange(usize::MAX, 1)));
    assert_eq!(
        evaluate("\"1 2\" *[-4] 5"),
        Err(EvalError::IndexOutOfRange(usize::MAX - 1, 2))
    );
}

#[test]
fn duplicating_takes_a_whole_number() {
    assert_eq!(evaluate("\"a\" ***2.5"), Err(EvalError::DuplicatingByFloat));
    assert_eq!(evaluate("\"a\" ***2.0"), Err(EvalError::DuplicatingByFloat));
    assert_eq!(evaluate("\"a\" ***2").unwrap(), "aa");
}

#[test]
fn what_is_no_command_is_given_back() {
    for wrong in ["", "\"a\"", "\"a\" *", "\"a\" ****2", "\"a\" * [1] 2", "\"a\" *[1.5] 2", "a *2",
        "\"a *2", "\"a\" *2 x", "\"a\" *2\n", "\"a\" 10 **"]
    {
        assert_eq!(
            parse_command(wrong),
            Err(ParseError::WrongCommand(wrong.to_string())),
            "{:?}",
            wrong
        );
        assert_eq!(
            evaluate(wrong),
            Err(EvalError::ParseError(ParseError::WrongCommand(wrong.to_string())))
        );
    }
}

#[test]
fn blanks_stand_around_and_between() {
    assert_eq!(evaluate(" \t\"2\"\t*\t3 \t").unwrap(), "6");
    assert_eq!(evaluate("\"2\"*3**2***2").unwrap(), "1212");
}

#[test]
fn a_whole_number_has_to_fit() {
    assert_eq!(
        parse_command("\"1\" *[99999999999999999999999] 2"),
        Err(ParseError::ParseIntError("99999999999999999999999".to_string()))
    );
    assert_eq!(
        parse_command("\"1\" ***-99999999999999999999999"),
        Err(ParseError::ParseIntError("-99999999999999999999999".to_string()))
    );
    let most = format!("\"1\" *[{}] 2", isize::MAX);
    assert_eq!(
        parse_command(&most).unwrap().operations[0].operation_type,
        OperationType::Mult(Some(isize::MAX))
    );
    let least = format!("\"1\" *[{}] 2", isize::MIN);
    assert_eq!(
        parse_command(&least).unwrap().operations[0].operation_type,
        OperationType::Mult(Some(isize::MIN))
    );
    let beyond = format!("\"1\" *[{}0] 2", isize::MAX);
    assert!(matches!(parse_command(&beyond), Err(ParseError::ParseIntError(_))));
    assert_eq!(
        parse_command("\"1\" *[0000000000000000000000000000007] 2").unwrap().operations[0]
            .operation_type,
        OperationType::Mult(Some(7))
    );
}

#[test]
fn the_first_number_that_does_not_fit_is_reported() {
    assert_eq!(
        parse_command("\"1\" *[88888888888888888888888] 2 ***99999999999999999999999"),
        Err(ParseError::ParseIntError("88888888888888888888888".to_string()))
    );
}

#[test]
fn a_number_has_no_limit() {
    assert_eq!(
        evaluate("\"1\" **99999999999999999999999").unwrap(),
        "99999999999999999999999"
    );
}

#[test]
fn arguments_are_read_by_their_operator() {
    let command = parse_command("\"x\" * 2 ** 3 *** 4 ***4.5 *[-1]1.5").unwrap();
    let found: Vec<(OperationType, Argument)> = command
        .operations
        .into_iter()
        .map(|o| (o.operation_type, o.argument))
        .collect();
    assert_eq!(
        found,
        vec![
            (OperationType::Mult(Some(0)), Argument::Number(Decimal::parse("2").unwrap())),
            (OperationType::MultAll, Argument::Number(Decimal::parse("3").unwrap())),
            (OperationType::Duplicate, Argument::Integer(4)),
            (OperationType::Duplicate, Argument::Number(Decimal::parse("4.5").unwrap())),
            (OperationType::Mult(Some(-1)), Argument::Number(Decimal::parse("1.5").unwrap())),
        ]
    );
}

#[test]
fn a_command_is_evaluated_as_it_is_built() {
    let command = StringMultCommand {
        params: vec![number("2"), text("x"), number("0.5")],
        operations: vec![
            operation(OperationType::MultAll, Argument::Integer(3)),
            operation(OperationType::Mult(None), Argument::Integer(-2)),
            operation(
                OperationType::Mult(Some(1)),
                Argument::Number(Decimal::parse("0.1").unwrap()),
            ),
            operation(OperationType::Duplicate, Argument::Integer(2)),
        ],
    };
    assert_eq!(evaluate_command(command.clone()).unwrap(), "-12x0.15-12x0.15");
    assert_eq!(evaluate_command(command.clone()), evaluate_command(command));
}

#[test]
fn a_command_without_operations_shows_its_subject() {
    let command = StringMultCommand { params: vec![number("1.50"), text("x")], operations: vec![] };
    assert_eq!(evaluate_command(command).unwrap(), "1.5x");
}

#[test]
fn a_parsed_command_has_an_operation() {
    for input in ["\"a1\" *2", "\"a1\" *2 **3", " \"\" ***1 "] {
        assert!(!parse_command(input).unwrap().operations.is_empty());
    }
}

#[test]
fn a_text_without_items_is_no_list() {
    assert_eq!(evaluate_list(""), Err(EvalError::NoCommandsList));
    assert_eq!(evaluate_list(" \n\t\r\n"), Err(EvalError::NoCommandsList));
    assert_eq!(parse_list(""), Err(ParseError::NoCommandsList));
    assert_eq!(parse_list("\n\n"), Err(ParseError::NoCommandsList));
}

#[test]
fn every_item_has_its_own_result() {
    let results = evaluate_list("x y\r\n\"1\" *2\n\n  \"a\" ***2.5 \"b\" *1\n\"3\" **3\n").unwrap();
    assert_eq!(
        results,
        vec![
            Err(EvalError::ParseError(ParseError::WrongCommand("x y".to_string()))),
            Ok("2".to_string()),
            Err(EvalError::DuplicatingByFloat),
            Err(EvalError::IndexOutOfRange(0, 0)),
            Ok("9".to_string()),
        ]
    );
}

#[test]
fn a_wrong_item_is_the_rest_of_its_line() {
    let parsed = parse_list("\"1\" *2 oops \"2\" *2\n\"3\" *3").unwrap();
    assert_eq!(parsed.len(), 3);
    assert!(parsed[0].is_ok());
    assert_eq!(
        parsed[1],
        Err(ParseError::WrongCommand("oops \"2\" *2".to_string()))
    );
    assert!(parsed[2].is_ok());
}

#[test]
fn a_list_and_its_commands_agree() {
    let lines = ["\"12 packs\" *** 3 *2", "\"4packs\" *[2]2", "\"19 bottles.\" **3", "\"1\" ***-2"];
    let results = evaluate_list(&lines.join("\n")).unwrap();
    assert_eq!(results.len(), lines.len());
    for (line, result) in lines.iter().zip(results) {
        assert_eq!(evaluate(line), result);
    }
}

#[test]
fn a_subject_may_hold_a_line_break() {
    assert_eq!(evaluate("\"a\nb1\" *2").unwrap(), "a\nb2");
    assert_eq!(evaluate_list("\"a\nb1\" *2").unwrap(), vec![Ok("a\nb2".to_string())]);
}

#[test]
fn a_line_break_ends_a_command() {
    let results = evaluate_list("\"a1\"\n*2").unwrap();
    assert_eq!(
        results,
        vec![
            Err(EvalError::ParseError(ParseError::WrongCommand("\"a1\"".to_string()))),
            Err(EvalError::ParseError(ParseError::WrongCommand("*2".to_string()))),
        ]
    );
}

#[test]
fn subjects_are_read_in_characters() {
    let backwards: String = "проба 4 ö".chars().rev().collect();
    assert_eq!(evaluate("\"проба 2 ö\" *2 ***-1").unwrap(), backwards);
    let pair = StringMultGrammar::parse(Rule::str_param, "\"ö1\" *2").unwrap();
    assert_eq!((pair.start(), pair.end()), (0, 4));
}

#[test]
fn pairs_know_their_place() {
    let command = StringMultGrammar::parse(Rule::command, "\"s\"  *[3]\t-12.2 rest").unwrap();
    assert_eq!(command.as_rule(), Rule::command);
    assert_eq!(command.as_str(), "\"s\"  *[3]\t-12.2");
    assert_eq!((command.start(), command.end()), (0, 15));
    let inner = command.into_inner();
    let found: Vec<(Rule, &str, usize, usize)> =
        inner.iter().map(|p| (p.as_rule(), p.as_str(), p.start(), p.end())).collect();
    assert_eq!(
        found,
        vec![
            (Rule::str_param, "\"s\"", 0, 3),
            (Rule::mult, "*[3]", 5, 9),
            (Rule::num, "-12.2", 10, 15),
        ]
    );
    let index = inner[1].clone().into_inner();
    assert_eq!(index.len(), 1);
    assert_eq!((index[0].as_rule(), index[0].as_str(), index[0].start()), (Rule::integer, "3", 7));
    assert!(inner[2].clone().into_inner().is_empty());
}

#[test]
fn the_argument_of_a_duplication_is_an_integer_or_a_number() {
    let command = StringMultGrammar::parse(Rule::command, "\"s\" ***3 ***3.5 *3").unwrap();
    let rules: Vec<Rule> = command.into_inner().iter().map(|p| p.as_rule()).collect();
    assert_eq!(
        rules,
        vec![
            Rule::str_param,
            Rule::duplicate,
            Rule::integer,
            Rule::duplicate,
            Rule::num,
            Rule::mult,
            Rule::num,
        ]
    );
}

#[test]
fn the_pieces_of_a_subject_are_pairs() {
    let subject = StringMultGrammar::parse(Rule::str_param, "\"a-1.5b\" *2").unwrap();
    assert_eq!(subject.as_str(), "\"a-1.5b\"");
    let found: Vec<(Rule, String, usize)> = subject
        .into_inner()
        .iter()
        .map(|p| (p.as_rule(), p.as_str().to_string(), p.start()))
        .collect();
    assert_eq!(
        found,
        vec![
            (Rule::inner_str_text, "a".to_string(), 1),
            (Rule::num, "-1.5".to_string(), 2),
            (Rule::inner_str_text, "b".to_string(), 6),
        ]
    );
}

#[test]
fn the_items_of_a_list_are_pairs() {
    let list = StringMultGrammar::parse(Rule::commands_list, " \"1\" *2\nno\n").unwrap();
    assert_eq!(list.as_str(), " \"1\" *2\nno");
    let found: Vec<(Rule, String, usize)> = list
        .into_inner()
        .iter()
        .map(|p| (p.as_rule(), p.as_str().to_string(), p.start()))
        .collect();
    assert_eq!(
        found,
        vec![(Rule::command, "\"1\" *2".to_string(), 1), (Rule::wrong_command, "no".to_string(), 8)]
    );
}

#[test]
fn a_rule_matches_at_the_start_or_not_at_all() {
    assert!(StringMultGrammar::parse(Rule::num, " 1").is_none());
    assert!(StringMultGrammar::parse(Rule::integer, "x1").is_none());
    assert!(StringMultGrammar::parse(Rule::mult, "[1]").is_none());
    assert!(StringMultGrammar::parse(Rule::multAll, "*2").is_none());
    assert!(StringMultGrammar::parse(Rule::duplicate, "**2").is_none());
    assert!(StringMultGrammar::parse(Rule::inner_str_text, "1a").is_none());
    assert!(StringMultGrammar::parse(Rule::inner_str_text, "\"a").is_none());
    assert!(StringMultGrammar::parse(Rule::str_param, "\"a").is_none());
    assert!(StringMultGrammar::parse(Rule::command, " \"a\" *2").is_none());
    assert!(StringMultGrammar::parse(Rule::command, "\"a\"").is_none());
    assert!(StringMultGrammar::parse(Rule::wrong_command, "\nx").is_none());
    assert!(StringMultGrammar::parse(Rule::wrong_command, "").is_none());
    assert!(StringMultGrammar::parse(Rule::commands_list, " \n ").is_none());
    assert_eq!(StringMultGrammar::parse(Rule::integer, "-12.5").unwrap().as_str(), "-12");
    assert_eq!(StringMultGrammar::parse(Rule::wrong_command, "a b\nc").unwrap().as_str(), "a b");
}
