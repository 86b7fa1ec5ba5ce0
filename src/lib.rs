//! Name resolution and editor navigation for a small expression language.
//!
//! The library takes an already parsed program, binds every identifier use to
//! its definition, indexes all identifier spans by position and answers the
//! queries of an editor: go to definition, find references, rename,
//! completion and semantic highlighting.
//!
//! Choices that callers see:
//! - names resolve to the most recent binding in scope; a let-bound name is
//!   not visible in its own initializer; top-level functions and structs are
//!   visible everywhere;
//! - where several spans contain an offset, the one that starts first wins,
//!   the earliest-registered on a tie, and a definition wins over a use;
//! - completion outside a field access offers every symbol of the program,
//!   whether or not it is in scope at the offset;
//! - two entities at one span abort the analysis rather than corrupt the
//!   table.
pub mod span;
pub mod by_start;
pub mod interval_index;
pub mod ast;
pub mod env;
pub mod symbol_table;
pub mod semantic_analyze;
pub mod reference;
pub mod completion;
pub mod semantic_token;
pub mod session;
