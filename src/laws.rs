//! Laws of the store's operations, stated over the contents that their
//! contracts speak of: `insert` turns `m` into `after_insert(m, k, v)`, a
//! successful `delete` into `m.remove(k)`, and `get` finds `lookup(m, k)`.
use vstd::bytes::lemma_auto_spec_u64_to_from_le_bytes;
use vstd::prelude::*;

use crate::codec::record_bytes;
use crate::store::{after_insert, lookup};

verus! {

/// Getting a key right after storing a non-empty value under it finds that
/// value.
pub proof fn law_get_after_insert(m: Map<Seq<u8>, Seq<u8>>, key: Seq<u8>, value: Seq<u8>)
    requires
        value.len() > 0,
    ensures
        lookup(after_insert(m, key, value), key) == Some(value),
{
}

/// After storing a non-empty value, deleting the key succeeds, and getting
/// it afterwards finds nothing.
pub proof fn law_get_after_delete(m: Map<Seq<u8>, Seq<u8>>, key: Seq<u8>, value: Seq<u8>)
    requires
        value.len() > 0,
    ensures
        lookup(after_insert(m, key, value), key) == Some(value),
        lookup(after_insert(m, key, value).remove(key), key) is None,
{
}

/// A deleted key comes back when a non-empty value is stored under it.
pub proof fn law_insert_after_delete(m: Map<Seq<u8>, Seq<u8>>, key: Seq<u8>, value: Seq<u8>)
    requires
        value.len() > 0,
    ensures
        lookup(after_insert(m.remove(key), key, value), key) == Some(value),
{
}

/// Deleting a key leaves it absent, so deleting it again finds nothing.
pub proof fn law_delete_twice(m: Map<Seq<u8>, Seq<u8>>, key: Seq<u8>)
    ensures
        lookup(m.remove(key), key) is None,
{
}

/// Storing a second non-empty value under a key replaces the first, and
/// the log grows by the second record all the same.
pub proof fn law_overwrite(
    m: Map<Seq<u8>, Seq<u8>>,
    log: Seq<u8>,
    key: Seq<u8>,
    first: Seq<u8>,
    second: Seq<u8>,
)
    requires
        first.len() > 0,
        second.len() > 0,
    ensures
        lookup(after_insert(after_insert(m, key, first), key, second), key) == Some(second),
        (log + record_bytes(key, second)).len() > log.len(),
{
    lemma_auto_spec_u64_to_from_le_bytes();
}

} // verus!
