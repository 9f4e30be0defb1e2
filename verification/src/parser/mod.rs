//! JSON tokenizer, node table and structural index, plus the message type
//! of the parsing worker an application may run beside them.

pub mod node;
pub mod structural_index;
pub mod token;
pub mod tokenizer;

use vstd::prelude::*;

verus! {

/// Command to a background parsing worker: tokenize this content, or stop.
#[derive(Debug, Clone)]
pub enum ParserMessage {
    Parse(String),
    Shutdown,
}

} // verus!
