//! The values of a parsed text, as the printer reads them.
//!
//! A document lists the values of a text in the order in which they start.
//! A value is known by its kind and by the bytes it takes in the text; the
//! values that start inside an array or object are its elements or members.

use vstd::prelude::*;

verus! {

/// The kinds of value.
#[derive(Clone, Copy, Debug, PartialEq, Eq, Structural)]
pub enum ValueKind {
    Null,
    Boolean,
    Integer,
    Float,
    String,
    Array,
    Object,
}

/// One value of a text: its kind, the offset of its first byte and the
/// number of bytes that it takes.
#[derive(Clone, Copy, Debug, PartialEq, Eq, Structural)]
pub struct ValueEntry {
    pub kind: ValueKind,
    pub position: usize,
    pub len: usize,
}

impl ValueEntry {
    /// The offset just behind the value.
    pub open spec fn end(self) -> int {
        self.position + self.len
    }

    /// Whether the value is neither an array nor an object.
    pub open spec fn is_scalar(self) -> bool {
        self.kind != ValueKind::Array && self.kind != ValueKind::Object
    }

    /// Whether the value lies within a text of `len` bytes.
    pub open spec fn fits(self, len: int) -> bool {
        self.end() <= len
    }
}

/// The values of a text in the order of their first bytes. The first entry
/// is the top-level value; an array or object is followed by what it holds.
pub struct Document {
    pub values: Vec<ValueEntry>,
}

impl View for Document {
    type V = Seq<ValueEntry>;

    /// The values of the document in their order.
    open spec fn view(&self) -> Seq<ValueEntry> {
        self.values@
    }
}

} // verus!
