//! Node records of the structural index: typed byte spans with a depth and
//! an optional parent, identified by their position in the node table.

use vstd::prelude::*;

verus! {

#[derive(Debug, Clone, Copy, PartialEq, Eq, Structural)]
pub enum NodeKind {
    Object,
    Array,
    String,
    Number,
    Boolean,
    Null,
    Key,
    Unknown,
    Error,
}

impl NodeKind {
    /// Kind name used by status displays.
    pub fn display(&self) -> (r: String)
        ensures
            r@ == self.display_spec(),
    {
        match self {
            NodeKind::Object => String::from_str("Object"),
            NodeKind::Array => String::from_str("Array"),
            NodeKind::String => String::from_str("String"),
            NodeKind::Number => String::from_str("Number"),
            NodeKind::Boolean => String::from_str("Boolean"),
            NodeKind::Null => String::from_str("Null"),
            NodeKind::Key => String::from_str("Key"),
            NodeKind::Unknown => String::from_str("Unknown"),
            NodeKind::Error => String::from_str("Error"),
        }
    }

    pub open spec fn display_spec(&self) -> Seq<char> {
        match self {
            NodeKind::Object => "Object"@,
            NodeKind::Array => "Array"@,
            NodeKind::String => "String"@,
            NodeKind::Number => "Number"@,
            NodeKind::Boolean => "Boolean"@,
            NodeKind::Null => "Null"@,
            NodeKind::Key => "Key"@,
            NodeKind::Unknown => "Unknown"@,
            NodeKind::Error => "Error"@,
        }
    }
}

#[derive(Debug, Clone, Copy, PartialEq, Eq, Structural)]
pub enum ParseStatus {
    Unparsed,
    Parsing,
    Parsed,
    Invalid,
}

/// Index of a node in the table that owns it; rebuilt wholesale with the
/// table, never stable across rebuilds.
pub type NodeId = usize;

#[derive(Debug, Clone, Copy, PartialEq, Eq, Structural)]
pub struct NodeInfo {
    pub kind: NodeKind,
    /// First byte of the node (inclusive).
    pub start: usize,
    /// One past the last byte of the node (exclusive).
    pub end: usize,
    /// Nesting depth; direct children sit at `depth + 1`.
    pub depth: u32,
    pub parent: Option<NodeId>,
    pub status: ParseStatus,
}

impl NodeInfo {
    pub fn new(kind: NodeKind, start: usize, end: usize, depth: u32, parent: Option<NodeId>) -> (n:
        NodeInfo)
        ensures
            n == (NodeInfo { kind, start, end, depth, parent, status: ParseStatus::Parsed }),
    {
        NodeInfo { kind, start, end, depth, parent, status: ParseStatus::Parsed }
    }

    pub open spec fn spec_contains(&self, offset: int) -> bool {
        self.start <= offset < self.end
    }

    pub fn contains(&self, offset: usize) -> (r: bool)
        ensures
            r == self.spec_contains(offset as int),
    {
        offset >= self.start && offset < self.end
    }

    /// Number of bytes the node spans.
    pub fn len(&self) -> (r: usize)
        requires
            self.start <= self.end,
        ensures
            r == self.end - self.start,
    {
        self.end - self.start
    }

    pub open spec fn spec_is_container(&self) -> bool {
        self.kind == NodeKind::Object || self.kind == NodeKind::Array
    }

    pub fn is_container(&self) -> (r: bool)
        ensures
            r == self.spec_is_container(),
    {
        match self.kind {
            NodeKind::Object => true,
            NodeKind::Array => true,
            _ => false,
        }
    }

    pub open spec fn spec_is_value(&self) -> bool {
        ||| self.kind == NodeKind::String
        ||| self.kind == NodeKind::Number
        ||| self.kind == NodeKind::Boolean
        ||| self.kind == NodeKind::Null
    }

    pub fn is_value(&self) -> (r: bool)
        ensures
            r == self.spec_is_value(),
    {
        match self.kind {
            NodeKind::String => true,
            NodeKind::Number => true,
            NodeKind::Boolean => true,
            NodeKind::Null => true,
            _ => false,
        }
    }
}

} // verus!
