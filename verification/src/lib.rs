//! A small language of commands that multiply the numbers in a string and
//! duplicate the string.
//!
//! A command is a quoted subject followed by operations:
//!
//! ```text
//! "3packs, 10mg/l" *4          the first number times 4
//! "3packs, 10mg/l" *[1] 6      the number with index 1 times 6
//! "7,8,9" ** 3.5               every number times 3.5
//! "123" ***3                   the subject three times
//! "123" ***-3                  the subject turned round, three times
//! ```
//!
//! [`parsing`] reads commands and [`evaluating`] gives their results;
//! [`grammar`] says what a command is, and [`pairs`] matches single rules of
//! the grammar. Numbers are exact decimals ([`decimal`]): a product is exact,
//! and a number is rounded only where it is shown, to eight decimal places.
//! [`laws`] and [`locality`] hold what is proved of all subjects, commands
//! and lists.

pub mod command;
pub mod decimal;
pub mod digits;
pub mod evaluating;
pub mod grammar;
pub mod laws;
pub mod locality;
pub mod pairs;
pub mod parsing;
pub mod segment;
pub mod syntax;
pub mod text;

pub use command::{
    to_string, Argument, OperationType, ParamsPiece, StringMultCommand, StringMultOperation,
};
pub use decimal::Decimal;
pub use evaluating::{evaluate, evaluate_command, evaluate_list, rev_params, EvalError};
pub use grammar::Rule;
pub use pairs::{Pair, StringMultGrammar};
pub use parsing::{parse_command, parse_list, parse_params, ParseError};
