//! A small grammar-driven parser: a grammar is read from a text in a tiny
//! BNF-like notation, and inputs are then parsed against it.

pub mod stream;
pub mod text;
pub mod grammar;
pub mod reader;
pub mod interp;
pub mod laws;

pub use grammar::{Interpreter, NonTerm, NonTerminal, Production, Terminal, TerminalOrNonTerminal};
pub use interp::{LanguageProduction, LanguageProductionOrTerm};
pub use stream::CharStream;
