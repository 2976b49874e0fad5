//! A persistent table from document ids, which the engine assigns, to user
//! ids, under which the user knows the documents, with the choice of unused
//! document ids for new documents.

use vstd::prelude::*;

pub mod document_id_to_user_id;
pub mod gaps;
pub mod key;
pub mod table;

pub use document_id_to_user_id::{DocumentIdToUserId, DocumentIdToUserIdIter, StoreError};
pub use table::MainT;

verus! {

/// Identifier that the engine assigns to a document.
#[derive(Debug, Clone, Copy, PartialEq, Eq, Structural, Hash)]
pub struct DocumentId(pub u64);

} // verus!
