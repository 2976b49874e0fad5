//! The LMDB table behind the store, as `heed` hands it out.
//!
//! Nothing in this file is proved. Each function below makes one call into
//! `heed`, and its contract states what that call does to the table, seen as a
//! map from key bytes to value bytes. The rest of the crate is verified against
//! these contracts.
//!
//! The contracts are those of a table that `heed` created: one without
//! duplicate keys, whose keys LMDB compares byte by byte, a shorter key coming
//! before the longer ones that it begins.

use crate::key::lex_lt;
use vstd::prelude::*;
use vstd::utf8::encode_utf8;

verus! {

/// Marker of the transactions that are opened on the main environment.
pub struct MainT;

/// `heed::Database`, the handle on one table of an environment.
#[verifier::external_type_specification]
#[verifier::external_body]
#[verifier::reject_recursive_types(KC)]
#[verifier::reject_recursive_types(DC)]
pub struct ExDatabase<KC, DC>(heed::Database<KC, DC>);

/// `heed::RoTxn`, a read transaction: a snapshot of the environment.
#[verifier::external_type_specification]
#[verifier::external_body]
#[verifier::reject_recursive_types(T)]
pub struct ExRoTxn<T>(heed::RoTxn<T>);

/// `heed::RwTxn`, a write transaction.
#[verifier::external_type_specification]
#[verifier::external_body]
#[verifier::reject_recursive_types(T)]
pub struct ExRwTxn<'p, T>(heed::RwTxn<'p, T>);

/// `heed::RoIter`, a cursor that walks a table within a read transaction.
#[verifier::external_type_specification]
#[verifier::external_body]
#[verifier::reject_recursive_types(KC)]
#[verifier::reject_recursive_types(DC)]
pub struct ExRoIter<'txn, KC, DC>(heed::RoIter<'txn, KC, DC>);

/// `heed::Error`, which is carried through and never looked into.
#[verifier::external_type_specification]
#[verifier::external_body]
pub struct ExError(heed::Error);

/// `heed::types::OwnedType`, the codec of keys that are stored as their own
/// bytes.
#[verifier::external_type_specification]
#[verifier::external_body]
#[verifier::reject_recursive_types(T)]
pub struct ExOwnedType<T>(heed::types::OwnedType<T>);

/// `heed::types::Str`, the codec of values that are stored as UTF-8 text.
#[verifier::external_type_specification]
#[verifier::external_body]
pub struct ExStr(heed::types::Str);

/// A table whose keys are eight bytes and whose values are text.
pub type Table = heed::Database<heed::types::OwnedType<[u8; 8]>, heed::types::Str>;

/// A cursor over such a table.
pub type Cursor<'txn> = heed::RoIter<'txn, heed::types::OwnedType<[u8; 8]>, heed::types::Str>;

/// What the table holds in the snapshot of a read transaction: the bytes of
/// each key with the bytes of its value.
pub uninterp spec fn stored(
    txn: heed::RoTxn<MainT>,
    db: heed::Database<heed::types::OwnedType<[u8; 8]>, heed::types::Str>,
) -> Map<Seq<u8>, Seq<u8>>;

/// What the table holds as a write transaction sees it, its own uncommitted
/// writes included.
pub uninterp spec fn pending(
    txn: heed::RwTxn<MainT>,
    db: heed::Database<heed::types::OwnedType<[u8; 8]>, heed::types::Str>,
) -> Map<Seq<u8>, Seq<u8>>;

/// The entries that a cursor has not handed out yet, in the order in which it
/// will.
pub uninterp spec fn unread(
    cursor: heed::RoIter<heed::types::OwnedType<[u8; 8]>, heed::types::Str>,
) -> Seq<(Seq<u8>, Seq<u8>)>;

/// The table that holds nothing.
pub open spec fn empty_table() -> Map<Seq<u8>, Seq<u8>> {
    Map::empty()
}

/// Whether `scan` lists the entries of `table`, each once, by ascending key in
/// byte-wise lexicographic order.
pub open spec fn is_scan_of(scan: Seq<(Seq<u8>, Seq<u8>)>, table: Map<Seq<u8>, Seq<u8>>) -> bool {
    &&& forall|i: int, j: int|
        0 <= i < j < scan.len() ==> lex_lt((#[trigger] scan[i]).0, (#[trigger] scan[j]).0)
    &&& forall|i: int|
        0 <= i < scan.len() ==> table.contains_pair((#[trigger] scan[i]).0, scan[i].1)
    &&& forall|k: Seq<u8>| #[trigger]
        table.contains_key(k) ==> exists|i: int| 0 <= i < scan.len() && (#[trigger] scan[i]).0 == k
}

/// `heed::Database::put`, which hands the key's bytes and the text's UTF-8
/// bytes to `mdb_put` without flags. Claimed: when it returns `Ok`, the table
/// holds the value under the key, in place of any earlier value, and is
/// otherwise as before. Nothing is claimed of the table after an error.
#[verifier::external_body]
pub(crate) fn put(db: &Table, txn: &mut heed::RwTxn<MainT>, key: &[u8; 8], data: &str) -> (r:
    Result<(), heed::Error>)
    ensures
        r is Ok ==> pending(*final(txn), *db) == pending(*old(txn), *db).insert(
            key@,
            encode_utf8(data@),
        ),
{
    db.put(txn, key, data)
}

/// `heed::Database::delete`, which calls `mdb_del` and turns "not found" into
/// `Ok(false)`. Claimed: when it returns `Ok`, the flag tells whether the table
/// held the key, and the table no longer holds it and is otherwise as before.
#[verifier::external_body]
pub(crate) fn delete(db: &Table, txn: &mut heed::RwTxn<MainT>, key: &[u8; 8]) -> (r: Result<
    bool,
    heed::Error,
>)
    ensures
        r matches Ok(existed) ==> existed == pending(*old(txn), *db).contains_key(key@) && pending(
            *final(txn),
            *db,
        ) == pending(*old(txn), *db).remove(key@),
{
    db.delete(txn, key)
}

/// `heed::Database::clear`, which calls `mdb_drop` so as to empty the table
/// and keep it open. Claimed: when it returns `Ok`, the table holds nothing.
#[verifier::external_body]
pub(crate) fn clear(db: &Table, txn: &mut heed::RwTxn<MainT>) -> (r: Result<(), heed::Error>)
    ensures
        r is Ok ==> pending(*final(txn), *db) == empty_table(),
{
    db.clear(txn)
}

/// `heed::Database::get`, which calls `mdb_get`, turns "not found" into
/// `Ok(None)` and decodes the value as UTF-8. Claimed: `Ok(Some(text))` comes
/// only for a key that the table holds, and the value under it is the UTF-8
/// encoding of `text`; `Ok(None)` comes only for a key that the table lacks.
#[verifier::external_body]
pub(crate) fn get<'txn>(db: &Table, txn: &'txn heed::RoTxn<MainT>, key: &[u8; 8]) -> (r: Result<
    Option<&'txn str>,
    heed::Error,
>)
    ensures
        r matches Ok(Some(text)) ==> stored(*txn, *db).contains_pair(key@, encode_utf8(text@)),
        r matches Ok(None) ==> !stored(*txn, *db).contains_key(key@),
{
    db.get(txn, key)
}

/// `heed::Database::iter`, documented as a lexicographically ordered iterator
/// of all key-value pairs of the database; it opens a cursor that starts at
/// the first key. Claimed: when it returns `Ok`, what the cursor has yet to
/// hand out is the whole table by ascending key.
#[verifier::external_body]
pub(crate) fn iter<'txn>(db: &Table, txn: &'txn heed::RoTxn<MainT>) -> (r: Result<
    Cursor<'txn>,
    heed::Error,
>)
    ensures
        r matches Ok(cursor) ==> is_scan_of(unread(cursor), stored(*txn, *db)),
{
    db.iter(txn)
}

/// `Iterator::next` of `heed::RoIter`, which moves the cursor one entry on and
/// decodes what it finds there. Claimed: `None` comes only when nothing is
/// left; `Some(Ok(..))` hands out the first entry that was left, the key as it
/// is and the value as the text that it encodes, and leaves the rest. Nothing
/// is claimed of the cursor after an error.
#[verifier::external_body]
pub(crate) fn next<'txn>(cursor: &mut Cursor<'txn>) -> (r: Option<
    Result<([u8; 8], &'txn str), heed::Error>,
>)
    ensures
        r is None ==> unread(*old(cursor)).len() == 0,
        r matches Some(Ok((key, text))) ==> unread(*old(cursor)).len() > 0 && unread(
            *old(cursor),
        )[0] == (key@, encode_utf8(text@)) && unread(*final(cursor)) == unread(*old(cursor)).skip(1),
{
    cursor.next()
}

} // verus!
