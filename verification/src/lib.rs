//! Reading the text that `ddbug -p all` prints about a C program's debug
//! information into records: translation units, with the functions, base
//! types, type definitions, structures, enumerations and global variables
//! that belong to each.
//!
//! Every parser is specified over the characters of its input: its result
//! is the value of a spec function that reads the block line by line.
//! Where a block is malformed in a way that the reading cannot go on with,
//! the parser's `requires` leaves it out and a `try_` variant reports it.

pub mod text;
pub mod support;
pub mod base;
pub mod enums;
pub mod structure;
pub mod ftype;
pub mod gvar;
pub mod function;
pub mod unit;
pub mod file;
pub mod parsing;
