//! The logical content of a record.

use vstd::prelude::*;

verus! {

/// What a message stands for: its fields as plain values.
pub struct MessageView {
    pub file_id: Option<Seq<char>>,
    pub chunk_index: Option<Seq<char>>,
    pub total_chunks: Option<Seq<char>>,
    pub payload: Seq<u8>,
}

/// One message of the log. The three optional fields describe the payload as
/// a chunk of a larger file; the log carries them along and never reads them.
#[derive(Debug, Clone)]
pub struct Message {
    /// Id of the file that the payload is a chunk of.
    pub file_id: Option<String>,
    /// Which chunk of the file the payload is.
    pub chunk_index: Option<String>,
    /// How many chunks the file has.
    pub total_chunks: Option<String>,
    /// The bytes carried.
    pub payload: Vec<u8>,
}

/// A text field as a plain value.
pub open spec fn spec_text(field: Option<String>) -> Option<Seq<char>> {
    match field {
        Some(text) => Some(text@),
        None => None,
    }
}

impl View for Message {
    type V = MessageView;

    open spec fn view(&self) -> MessageView {
        MessageView {
            file_id: spec_text(self.file_id),
            chunk_index: spec_text(self.chunk_index),
            total_chunks: spec_text(self.total_chunks),
            payload: self.payload@,
        }
    }
}

} // verus!
