use string_mult::parsing::{parse_command, parse_list, ParseError};
use string_mult::{Argument, Decimal, OperationType, ParamsPiece};

#[test]
fn parsing_list() {
    let res = parse_list("\"15 packs, 10mg/l\" *[0] 100\n \"15 packs, 10mg/l\" *[1] 101");
    println!("{:#?}", res);
    assert!(res.is_ok());
    let res = res.unwrap();
    assert_eq!(res.len(), 2);
    assert!(res[0].is_ok());
    assert!(res[1].is_ok());
}

#[test]
fn parsing_list_with_errors() {
    let res = parse_list(
        "\"15 packs, 10mg/l\" *[0] 100\n \"15 packs, 10mg/l\" ***** 101\n\"3434\" **2 ",
    );
    println!("{:#?}", res);
    assert!(res.is_ok());
    let res = res.unwrap();
    assert_eq!(res.len(), 3);
    assert!(res[0].is_ok());
    assert!(res[1].is_err());
    assert!(res[2].is_ok());
}

#[test]
fn parsing_command() {
    let res = parse_command("\"15 packs, 10mg/l\" *[1] 100");
    assert!(res.is_ok());

    let res = res.unwrap();
    assert_eq!(res.params.len(), 4);
    assert_eq!(res.params[0], ParamsPiece::Num(Decimal::from_integer(15)));
    assert_eq!(res.params[1], ParamsPiece::Str(" packs, ".to_string()));
    assert_eq!(res.params[2], ParamsPiece::Num(Decimal::from_integer(10)));
    assert_eq!(res.params[3], ParamsPiece::Str("mg/l".to_string()));

    assert_eq!(res.operations.len(), 1);
    assert_eq!(
        res.operations[0].operation_type,
        OperationType::Mult(Some(1))
    );
    assert_eq!(
        res.operations[0].argument,
        Argument::Number(Decimal::from_integer(100))
    );
}

#[test]
fn no_valid_command() {
    let res = parse_command("\"15 packs, 10mg/l *[1]\" ***** 10");
    assert!(res.is_err());
    if let Err(ParseError::WrongCommand(_)) = res {
    } else {
        panic!("wrong error");
    }
}

#[test]
fn parsing_wrong_command_in_list() {
    let res = parse_list("\"15 packs, 10mg/l *[1]\" ***** 10");
    assert!(res.is_ok());
    if let Err(ParseError::WrongCommand(_)) = res.unwrap()[0] {
    } else {
        panic!("wrong error");
    }
}

#[test]
fn argument_without_operation() {
    let res = parse_command("\"15 packs, 10mg/l\" 10 **");
    assert!(res.is_err());
}

#[test]
fn int_too_long() {
    let res = parse_command(
        "\"15 packs, 10mg/l\" *** 10000000000000000000000000000000000000000000000000000000000000",
    );
    assert!(res.is_err());
    if let Err(ParseError::ParseIntError(_)) = res {
    } else {
        panic!("wrong error");
    }
}
