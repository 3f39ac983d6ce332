//! Expansion of `bitfield!` declarations into a struct and its bit accessors.
//!
//! A declaration is a sequence of tokens: `pub Name, a: 3, b: [5; 4]`. It expands to a struct that
//! holds an array of bytes, a constructor, and a getter and a setter for each field. `expand` is
//! the entry; `semantics` says what generated code computes, and `laws` what the accessors of a
//! declaration do together.

pub mod access;
pub mod ast;
pub mod bits;
pub mod expand;
pub mod faults;
pub mod field;
pub mod forms;
pub mod grammar;
pub mod items;
pub mod laws;
pub mod layout;
pub mod meaning;
pub mod parser;
pub mod reading;
pub mod semantics;
pub mod spelling;
pub mod storage;
pub mod token;
pub mod types;
