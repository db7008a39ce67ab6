//! An in-memory vector similarity index over fixed-dimension embeddings.
//!
//! Embeddings travel through this crate as the bit patterns of their
//! 32-bit float entries, so every structural operation on them — padding,
//! truncation, storage, removal, the join of neighbour payloads against the
//! document table, and the snapshot codec — is verified. The host adapter
//! performs the floating-point work (the k-d tree distance queries and the
//! similarity transform), which cannot be stated here.

use vstd::prelude::*;

pub mod codec;
pub mod engine;
pub mod laws;
pub mod fingerprint;

verus! {

/// The number of entries every indexed or queried embedding is brought to.
pub const DIM: usize = 768;

/// User-facing metadata carried by every indexed record.
#[derive(Debug, PartialEq, Eq)]
pub struct Document {
    pub id: String,
    pub title: String,
    pub url: String,
}

/// The mathematical value of a [`Document`]: its three fields as
/// character sequences.
pub struct DocModel {
    pub id: Seq<char>,
    pub title: Seq<char>,
    pub url: Seq<char>,
}

impl View for Document {
    type V = DocModel;

    open spec fn view(&self) -> DocModel {
        DocModel { id: self.id@, title: self.title@, url: self.url@ }
    }
}

impl Document {
    /// A copy whose fields hold the same characters.
    pub fn duplicate(&self) -> (r: Document)
        ensures
            r@ == self@,
    {
        Document { id: self.id.clone(), title: self.title.clone(), url: self.url.clone() }
    }
}

} // verus!
