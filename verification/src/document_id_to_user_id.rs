//! The table that records, for each document id, the id under which the user
//! knows the document.

use crate::gaps::{exhausted, is_allocation, lemma_exhausted_has_no_allocation, GapScan};
use crate::key::{be_bytes, decode, encode, lemma_bytes_injective, lemma_order_preserved};
use crate::table::{empty_table, is_scan_of, pending, stored, unread, Cursor, MainT, Table};
use crate::DocumentId;
use vstd::prelude::*;
use vstd::utf8::{decode_utf8, encode_utf8, encode_utf8_decode_utf8};

verus! {

/// Why an operation on the store failed.
#[derive(Debug)]
pub enum StoreError {
    /// The underlying store reported a failure, which is handed on as it came.
    StorageFailure(heed::Error),
    /// Fewer unused document ids are left than were asked for.
    IdentifiersExhausted,
}

/// The key under which the entry of a document id is stored.
pub open spec fn key_of(id: DocumentId) -> Seq<u8> {
    be_bytes(id.0)
}

/// The user id that `table` records for a document id, if it records one.
pub open spec fn user_id_in(table: Map<Seq<u8>, Seq<u8>>, id: DocumentId) -> Option<Seq<char>> {
    if table.contains_key(key_of(id)) {
        Some(decode_utf8(table[key_of(id)]))
    } else {
        None
    }
}

/// The document ids for which `table` records a user id.
pub open spec fn document_ids_in(table: Map<Seq<u8>, Seq<u8>>) -> Set<u64> {
    Set::new(|id: u64| table.contains_key(be_bytes(id)))
}

/// A handle on the table from document ids to user ids. The handle is small
/// and can be copied freely; the entries live in the underlying store.
#[derive(Copy, Clone)]
pub struct DocumentIdToUserId {
    pub(crate) document_id_to_user_id: Table,
}

impl DocumentIdToUserId {
    /// The table of the underlying store that the handle refers to.
    pub closed spec fn database(self) -> Table {
        self.document_id_to_user_id
    }

    /// The entries as a read transaction sees them: key bytes to value bytes.
    pub open spec fn table(self, reader: heed::RoTxn<MainT>) -> Map<Seq<u8>, Seq<u8>> {
        stored(reader, self.database())
    }

    /// The entries as a write transaction sees them, its own writes included.
    pub open spec fn pending(self, writer: heed::RwTxn<MainT>) -> Map<Seq<u8>, Seq<u8>> {
        pending(writer, self.database())
    }

    /// A handle on `database`.
    pub fn new(database: Table) -> (store: Self)
        ensures
            store.database() == database,
    {
        DocumentIdToUserId { document_id_to_user_id: database }
    }

    /// Records `user_id` for `document_id`, in place of what was recorded for
    /// it before.
    pub fn put_document_id(
        self,
        writer: &mut heed::RwTxn<MainT>,
        document_id: DocumentId,
        user_id: &str,
    ) -> (r: Result<(), StoreError>)
        ensures
            r is Ok ==> self.pending(*final(writer)) == self.pending(*old(writer)).insert(
                key_of(document_id),
                encode_utf8(user_id@),
            ),
            r is Ok ==> user_id_in(self.pending(*final(writer)), document_id) == Some(user_id@),
            r matches Err(e) ==> e is StorageFailure,
    {
        let id = encode(document_id.0);
        match crate::table::put(&self.document_id_to_user_id, writer, &id, user_id) {
            Ok(()) => {
                proof {
                    lemma_put_then_lookup(self.pending(*old(writer)), document_id, user_id@);
                }
                Ok(())
            },
            Err(e) => Err(StoreError::StorageFailure(e)),
        }
    }

    /// Removes the entry of `document_id` and tells whether there was one.
    pub fn del_document_id(self, writer: &mut heed::RwTxn<MainT>, document_id: DocumentId) -> (r:
        Result<bool, StoreError>)
        ensures
            r matches Ok(existed) ==> existed == self.pending(*old(writer)).contains_key(
                key_of(document_id),
            ) && self.pending(*final(writer)) == self.pending(*old(writer)).remove(
                key_of(document_id),
            ),
            r matches Ok(existed) ==> !existed ==> self.pending(*final(writer)) == self.pending(
                *old(writer),
            ),
            r matches Err(e) ==> e is StorageFailure,
    {
        let id = encode(document_id.0);
        match crate::table::delete(&self.document_id_to_user_id, writer, &id) {
            Ok(existed) => {
                proof {
                    lemma_delete_absent(self.pending(*old(writer)), document_id);
                }
                Ok(existed)
            },
            Err(e) => Err(StoreError::StorageFailure(e)),
        }
    }

    /// Removes all entries.
    pub fn clear(self, writer: &mut heed::RwTxn<MainT>) -> (r: Result<(), StoreError>)
        ensures
            r is Ok ==> self.pending(*final(writer)) == empty_table(),
            r matches Err(e) ==> e is StorageFailure,
    {
        match crate::table::clear(&self.document_id_to_user_id, writer) {
            Ok(()) => Ok(()),
            Err(e) => Err(StoreError::StorageFailure(e)),
        }
    }

    /// The user id recorded for `document_id`, if there is one.
    pub fn document_id<'txn>(self, reader: &'txn heed::RoTxn<MainT>, document_id: DocumentId) -> (r:
        Result<Option<&'txn str>, StoreError>)
        ensures
            r matches Ok(Some(user_id)) ==> self.table(*reader).contains_pair(
                key_of(document_id),
                encode_utf8(user_id@),
            ) && user_id_in(self.table(*reader), document_id) == Some(user_id@),
            r matches Ok(None) ==> user_id_in(self.table(*reader), document_id) is None,
            r matches Err(e) ==> e is StorageFailure,
    {
        let id = encode(document_id.0);
        match crate::table::get(&self.document_id_to_user_id, reader, &id) {
            Ok(Some(user_id)) => {
                proof {
                    encode_utf8_decode_utf8(user_id@);
                }
                Ok(Some(user_id))
            },
            Ok(None) => Ok(None),
            Err(e) => Err(StoreError::StorageFailure(e)),
        }
    }

    /// The `count` smallest document ids that are free in the snapshot of
    /// `reader`, in ascending order: the ids in the gaps between the ids in
    /// use come first, the ids past the largest id in use after them. Ids below
    /// the smallest id in use are not handed out. Nothing is read when `count`
    /// is zero.
    pub fn next_available_documents_ids(self, reader: &heed::RoTxn<MainT>, count: usize) -> (r:
        Result<Vec<DocumentId>, StoreError>)
        ensures
            count == 0 ==> r is Ok,
            r matches Ok(ids) ==> is_allocation(
                document_ids_in(self.table(*reader)),
                count as nat,
                ids@,
            ),
            r matches Err(StoreError::IdentifiersExhausted) ==> exhausted(
                document_ids_in(self.table(*reader)),
                count as nat,
            ),
            r is Ok ==> !exhausted(document_ids_in(self.table(*reader)), count as nat),
    {
        if count == 0 {
            let ids: Vec<DocumentId> = Vec::new();
            proof {
                let keys = document_ids_in(self.table(*reader));
                if exhausted(keys, 0) {
                    lemma_exhausted_has_no_allocation(keys, 0, ids@);
                }
            }
            return Ok(ids);
        }
        let mut cursor = match crate::table::iter(&self.document_id_to_user_id, reader) {
            Ok(cursor) => cursor,
            Err(e) => {
                return Err(StoreError::StorageFailure(e));
            },
        };
        let ghost table = self.table(*reader);
        let ghost scan = unread(cursor);
        let ghost mut seen: int = 0;
        let mut gaps = GapScan::new(count);
        assert(gaps.keys() =~= visited(scan, seen));
        loop
            invariant_except_break
                unread(cursor) == scan.skip(seen),
            invariant
                count > 0,
                is_scan_of(scan, table),
                0 <= seen <= scan.len(),
                gaps.wf(),
                gaps.count() == count,
                gaps.keys() == visited(scan, seen),
            ensures
                seen == scan.len(),
            decreases unread(cursor).len(),
        {
            match crate::table::next(&mut cursor) {
                None => {
                    break;
                },
                Some(Err(e)) => {
                    return Err(StoreError::StorageFailure(e));
                },
                Some(Ok((key, _user_id))) => {
                    let current = decode(&key);
                    proof {
                        assert(scan.skip(seen)[0] == scan[seen]);
                        assert forall|k: u64| gaps.keys().contains(k) implies k < current by {
                            let i = choose|i: int| 0 <= i < seen && scan[i].0 == be_bytes(k);
                            lemma_order_preserved(k, current);
                        }
                    }
                    gaps.visit(DocumentId(current));
                    proof {
                        assert(scan.skip(seen).skip(1) =~= scan.skip(seen + 1));
                        assert(visited(scan, seen).insert(current) =~= visited(scan, seen + 1)) by {
                            assert forall|k: u64|
                                visited(scan, seen + 1).contains(k) implies visited(
                                scan,
                                seen,
                            ).insert(current).contains(k) by {
                                let i = choose|i: int|
                                    0 <= i < seen + 1 && scan[i].0 == be_bytes(k);
                                if i == seen {
                                    lemma_bytes_injective(k, current);
                                }
                            }
                        }
                        seen = seen + 1;
                    }
                },
            }
        }
        proof {
            assert(visited(scan, seen) =~= document_ids_in(table));
        }
        match gaps.finish() {
            Some(ids) => Ok(ids),
            None => Err(StoreError::IdentifiersExhausted),
        }
    }

    /// A cursor over all entries by ascending document id.
    pub fn iter<'txn>(self, reader: &'txn heed::RoTxn<MainT>) -> (r: Result<
        DocumentIdToUserIdIter<'txn>,
        StoreError,
    >)
        ensures
            r matches Ok(entries) ==> is_scan_of(entries.remaining(), self.table(*reader)),
            r matches Err(e) ==> e is StorageFailure,
    {
        match crate::table::iter(&self.document_id_to_user_id, reader) {
            Ok(iter) => Ok(DocumentIdToUserIdIter { iter }),
            Err(e) => Err(StoreError::StorageFailure(e)),
        }
    }
}

/// The document ids whose keys are among the first `seen` entries of `scan`.
spec fn visited(scan: Seq<(Seq<u8>, Seq<u8>)>, seen: int) -> Set<u64> {
    Set::new(|id: u64| exists|i: int| 0 <= i < seen && (#[trigger] scan[i]).0 == be_bytes(id))
}

/// A cursor over the entries of the table, which hands them out one by one,
/// by ascending document id, for as long as the read transaction lives.
pub struct DocumentIdToUserIdIter<'txn> {
    iter: Cursor<'txn>,
}

impl<'txn> DocumentIdToUserIdIter<'txn> {
    /// The entries that are still to come, in the order in which they will:
    /// key bytes with value bytes.
    pub closed spec fn remaining(&self) -> Seq<(Seq<u8>, Seq<u8>)> {
        unread(self.iter)
    }

    /// Hands out the next entry, or `None` when there is none left. After an
    /// error the cursor must not be used further.
    pub fn next(&mut self) -> (r: Option<Result<(DocumentId, &'txn str), StoreError>>)
        ensures
            r is None ==> old(self).remaining().len() == 0,
            r matches Some(Ok((id, user_id))) ==> old(self).remaining().len() > 0 && old(
                self,
            ).remaining()[0] == (key_of(id), encode_utf8(user_id@)) && final(self).remaining()
                == old(self).remaining().skip(1),
            r matches Some(Err(e)) ==> e is StorageFailure,
    {
        match crate::table::next(&mut self.iter) {
            Some(Ok((document_id, user_id))) => {
                let document_id = decode(&document_id);
                Some(Ok((DocumentId(document_id), user_id)))
            },
            Some(Err(e)) => Some(Err(StoreError::StorageFailure(e))),
            None => None,
        }
    }
}

/// A user id that was put under a document id is what a lookup of that id
/// finds afterwards, and what a lookup of any other id finds is as before.
pub proof fn lemma_put_then_lookup(
    table: Map<Seq<u8>, Seq<u8>>,
    id: DocumentId,
    user_id: Seq<char>,
)
    ensures
        user_id_in(table.insert(key_of(id), encode_utf8(user_id)), id) == Some(user_id),
        forall|other: DocumentId|
            other != id ==> #[trigger] user_id_in(
                table.insert(key_of(id), encode_utf8(user_id)),
                other,
            ) == user_id_in(table, other),
{
    encode_utf8_decode_utf8(user_id);
    assert forall|other: DocumentId| other != id implies key_of(other) != key_of(id) by {
        if key_of(other) == key_of(id) {
            lemma_bytes_injective(other.0, id.0);
        }
    }
}

/// Deleting the entry of a document id that has none leaves the table as it
/// is; and once an entry was deleted, there is none to delete.
pub proof fn lemma_delete_absent(table: Map<Seq<u8>, Seq<u8>>, id: DocumentId)
    ensures
        !table.contains_key(key_of(id)) ==> table.remove(key_of(id)) == table,
        !table.remove(key_of(id)).contains_key(key_of(id)),
        user_id_in(table.remove(key_of(id)), id) is None,
{
    if !table.contains_key(key_of(id)) {
        assert(table.remove(key_of(id)) =~= table);
    }
}

/// In the table that holds nothing, a scan hands out nothing and no document
/// id has a user id.
pub proof fn lemma_cleared(scan: Seq<(Seq<u8>, Seq<u8>)>, id: DocumentId)
    requires
        is_scan_of(scan, empty_table()),
    ensures
        scan.len() == 0,
        user_id_in(empty_table(), id) is None,
{
    if scan.len() > 0 {
        assert(empty_table().contains_pair(scan[0].0, scan[0].1));
    }
}

/// A scan hands out the document ids in strictly increasing order: of two
/// entries, the one that comes first has the smaller id.
pub proof fn lemma_scan_ascending(
    scan: Seq<(Seq<u8>, Seq<u8>)>,
    table: Map<Seq<u8>, Seq<u8>>,
    i: int,
    j: int,
    first: DocumentId,
    second: DocumentId,
)
    requires
        is_scan_of(scan, table),
        0 <= i < j < scan.len(),
        scan[i].0 == key_of(first),
        scan[j].0 == key_of(second),
    ensures
        first.0 < second.0,
{
    lemma_order_preserved(first.0, second.0);
}

} // verus!
