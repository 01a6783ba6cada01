use string_mult::{Rule, StringMultGrammar};

#[test]
fn grammar_num() {
    let data = StringMultGrammar::parse(Rule::num, "-44.43,-15").expect("no field");
    println!("{:?}", data);
    assert_eq!(data.as_str(), "-44.43");
    assert_eq!(data.start(), 0);
}

#[test]
fn grammar_num_splits_on_spacing() {
    let data = StringMultGrammar::parse(Rule::num, "-4 4.43 -15").expect("no field");
    println!("{:?}", data);
    assert_eq!(data.as_str(), "-4");
    assert_eq!(data.start(), 0);
}

#[test]
fn grammar_wrong_num_is_err() {
    let data = StringMultGrammar::parse(Rule::num, "--4.- 4.43 -15");
    println!("{:?}", data);
    assert!(data.is_none());
}

#[test]
fn grammar_int() {
    let data = StringMultGrammar::parse(Rule::integer, "-44,-15").expect("no int");
    println!("{:?}", data);
    assert_eq!(data.as_str(), "-44");
    assert_eq!(data.start(), 0);
}

#[test]
fn grammar_mult() {
    let mut data = StringMultGrammar::parse(Rule::mult, "*").expect("no mult");
    println!("{:?}", data);
    assert_eq!(data.as_str(), "*");
    assert_eq!(data.start(), 0);

    data = StringMultGrammar::parse(Rule::mult, "*[3]").expect("no parametrized mult");
    println!("{:?}", data);
    assert_eq!(data.as_str(), "*[3]");
    assert_eq!(data.start(), 0);
}

#[test]
fn grammar_wrong_param_mult_is_mult() {
    let data = StringMultGrammar::parse(Rule::mult, "*[-3.5]").expect("no mult");
    println!("{:?}", data);
    assert_eq!(data.as_str(), "*");
    assert_eq!(data.start(), 0);
}

#[test]
fn grammar_mult_all() {
    let data = StringMultGrammar::parse(Rule::multAll, "*****").expect("no mult_all");
    println!("{:?}", data);
    assert_eq!(data.as_str(), "**");
    assert_eq!(data.start(), 0);
}

#[test]
fn grammar_duplicate() {
    let data = StringMultGrammar::parse(Rule::duplicate, "***").expect("no duplicate");
    println!("{:?}", data);
    assert_eq!(data.as_str(), "***");
    assert_eq!(data.start(), 0);
}

#[test]
fn grammar_inner_str_text() {
    let data =
        StringMultGrammar::parse(Rule::inner_str_text, " abc -4def,--5\"").expect("no inner_str");
    println!("{:#?}", data);
    assert_eq!(data.as_str(), " abc ");
}

#[test]
fn grammar_str_param_splits_numbers() {
    let data =
        StringMultGrammar::parse(Rule::str_param, "\"3 abc -4def,--5\"").expect("no str_param");
    println!("{:#?}", data);
    let mut inner_pairs = data.into_inner().into_iter();
    assert_eq!(inner_pairs.next().unwrap().as_str(), "3");
    assert_eq!(inner_pairs.next().unwrap().as_str(), " abc ");
    assert_eq!(inner_pairs.next().unwrap().as_str(), "-4");
    assert_eq!(inner_pairs.next().unwrap().as_str(), "def,-");
    assert_eq!(inner_pairs.next().unwrap().as_str(), "-5");
}

#[test]
fn grammar_str_param_allows_numbers_abscence() {
    let data = StringMultGrammar::parse(Rule::str_param, "\"abc def\"").expect("no str_param");
    println!("{:#?}", data);
    assert_eq!(data.as_str(), "\"abc def\"");
}

#[test]
fn grammar_command_ignores_spacing() {
    let data = StringMultGrammar::parse(Rule::command, "\"str\" \t\t  *[3]\t  \t\t-12.2")
        .expect("no command");
    println!("{:#?}", data);
    let mut inner_pairs = data.into_inner().into_iter();
    assert_eq!(inner_pairs.next().unwrap().as_str(), "\"str\"");
    assert_eq!(inner_pairs.next().unwrap().as_str(), "*[3]");
    assert_eq!(inner_pairs.next().unwrap().as_str(), "-12.2");
}

#[test]
fn grammar_command_allows_multiple_operations() {
    let data = StringMultGrammar::parse(Rule::command, "\"str\" \t\t  *-12.2 \t*** 3")
        .expect("no command");
    println!("{:#?}", data);
    let mut inner_pairs = data.into_inner().into_iter();
    assert_eq!(inner_pairs.next().unwrap().as_str(), "\"str\"");
    assert_eq!(inner_pairs.next().unwrap().as_str(), "*");
    assert_eq!(inner_pairs.next().unwrap().as_str(), "-12.2");
    assert_eq!(inner_pairs.next().unwrap().as_str(), "***");
    assert_eq!(inner_pairs.next().unwrap().as_str(), "3");
}

#[test]
fn commands_list_iterates() {
    let data = StringMultGrammar::parse(
        Rule::commands_list,
        "\"12 packs\" *** 3 *2\n \"4packs\" *2 \"19 bottles.\" **3",
    )
    .expect("no command");
    println!("{:#?}", data);
    let mut inner_pairs = data.into_inner().into_iter();
    let first = inner_pairs.next().unwrap();
    assert_eq!(first.as_str(), "\"12 packs\" *** 3 *2");
    let second = inner_pairs.next().unwrap();
    assert_eq!(second.as_str(), "\"4packs\" *2");
    let third = inner_pairs.next().unwrap();
    assert_eq!(third.as_str(), "\"19 bottles.\" **3");
}

#[test]
fn grammar_wrong_command_in_list() {
    let data = StringMultGrammar::parse(
        Rule::commands_list,
        "\"12 packs\" *** 3 *2\n \"4packs\" *****2 \"19 bottles.\" **3",
    )
    .expect("no command");
    let mut inner_pairs = data.into_inner().into_iter();
    _ = inner_pairs.next().unwrap();
    let second = inner_pairs.next().unwrap();
    assert!(second.as_rule() == Rule::wrong_command);
}
