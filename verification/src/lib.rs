//! Core engine of a structured-text editor for very large JSON files.
//!
//! The crate is organised around two subsystems:
//!
//! * the storage core ([`buffer`]), which represents a file either as an
//!   in-memory rope (small files) or as a read-only mapped byte view with a
//!   line-offset table, an LRU line cache and a sparse per-line edit overlay
//!   (large files), together with the save engine's state machine; and
//! * the structural index ([`parser`]), which tokenizes JSON bytes and builds
//!   a flat, navigable table of typed nodes.
//!
//! File handles, memory maps, threads and terminals live outside this crate;
//! the library works on plain values and on collections of the `ropey` and
//! `memmap2` crates held behind trusted wrappers.

pub mod buffer;
pub mod edit;
pub mod mode;
pub mod outside;
pub mod parser;
pub mod text;
pub mod ui;

pub use buffer::cursor::Cursor;
pub use buffer::Buffer;
pub use parser::node::{NodeInfo, NodeKind};
pub use parser::structural_index::StructuralIndex;
pub use parser::token::{Token, TokenKind};
pub use parser::tokenizer::Tokenizer;
pub use ui::Viewport;
