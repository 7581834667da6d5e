//! Core of the comma terminal and its shell.

pub mod arith;
pub mod brace;
pub mod builtins;
pub mod color;
pub mod completion;
pub mod config;
pub mod env;
pub mod expand;
pub mod formulas;
pub mod frame;
pub mod highlight;
pub mod input;
pub mod job_control;
pub mod joining;
pub mod keys;
pub mod lexer;
pub mod number;
pub mod order;
pub mod params;
pub mod parser;
pub mod paths;
pub mod pattern;
pub mod pipeline;
pub mod printing;
pub mod prompt;
pub mod quoting;
pub mod row;
pub mod script;
pub mod shell;
pub mod splitting;
pub mod spreading;
pub mod substitution;
pub mod tabs;
pub mod tally;
pub mod text;
pub mod view;
