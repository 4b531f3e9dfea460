//! Heuristic, line-local text tools for C-like sources and linker map files:
//! a character-class cursor, a function-symbol extractor, a map-line parser
//! that finds an address and a symbol on one line, a symbol-to-address
//! lookup, and a map rewriter that renames symbols by address.
pub mod cursor;
pub mod extract;
pub mod lookup;
pub mod mapline;
pub mod update;
