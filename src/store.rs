//! The store: load a log, then get, insert and delete keys. Writes append a
//! record to the log and then point the index at it; reads go through the
//! index to the log.
use vstd::bytes::lemma_auto_spec_u64_to_from_le_bytes;
use vstd::prelude::*;
use vstd::slice::slice_to_vec;

use crate::codec::{
    decode_header, encode, lemma_parse_from_append,
    lemma_record_header, parse_from, parse_log, record_bytes, record_fits, RecordSpec, HEADER_LEN,
};
use crate::index::Index;
use crate::log::LogStore;

verus! {

/// Why an operation of the store failed.
#[derive(Debug, Clone, Copy, PartialEq, Eq, Structural)]
pub enum KvError {
    /// The key has no record, or its latest record is a tombstone.
    NotFound,
    /// The log is not a whole number of records: a partial header at its
    /// end, or a header whose lengths run past its end.
    Corrupt,
}

/// For each key that has a record in `rs`, the value of its last record
/// (empty for a tombstone).
pub open spec fn latest(rs: Seq<RecordSpec>) -> Map<Seq<u8>, Seq<u8>>
    decreases rs.len(),
{
    if rs.len() == 0 {
        Map::empty()
    } else {
        latest(rs.drop_last()).insert(rs.last().0, rs.last().1)
    }
}

/// The live keys of `last` with their values: tombstones left out.
pub open spec fn live(last: Map<Seq<u8>, Seq<u8>>) -> Map<Seq<u8>, Seq<u8>> {
    Map::new(|k: Seq<u8>| last.contains_key(k) && last[k].len() > 0, |k: Seq<u8>| last[k])
}

/// What a store whose log holds the records `rs` contains.
pub open spec fn contents(rs: Seq<RecordSpec>) -> Map<Seq<u8>, Seq<u8>> {
    live(latest(rs))
}

/// The contents after storing `value` under `key`: an empty value deletes.
pub open spec fn after_insert(m: Map<Seq<u8>, Seq<u8>>, key: Seq<u8>, value: Seq<u8>) -> Map<
    Seq<u8>,
    Seq<u8>,
> {
    if value.len() == 0 {
        m.remove(key)
    } else {
        m.insert(key, value)
    }
}

/// What a lookup of `key` in the contents `m` finds.
pub open spec fn lookup(m: Map<Seq<u8>, Seq<u8>>, key: Seq<u8>) -> Option<Seq<u8>> {
    if m.contains_key(key) {
        Some(m[key])
    } else {
        None
    }
}

/// Some record of `rs` has the key `key`.
pub open spec fn written(rs: Seq<RecordSpec>, key: Seq<u8>) -> bool {
    exists|i: int| 0 <= i < rs.len() && (#[trigger] rs[i]).0 == key
}

/// Each key of the index points at its last record in `log`, and the index
/// holds exactly the keys that have a record.
spec fn index_matches(
    idx: Map<Seq<u8>, usize>,
    last: Map<Seq<u8>, Seq<u8>>,
    log: Seq<u8>,
) -> bool {
    &&& idx.dom() == last.dom()
    &&& forall|k: Seq<u8>| #[trigger]
        idx.contains_key(k) ==> {
            &&& record_fits(k, last[k])
            &&& idx[k] + record_bytes(k, last[k]).len() <= log.len()
            &&& log.subrange(idx[k] as int, idx[k] + record_bytes(k, last[k]).len())
                == record_bytes(k, last[k])
        }
}

proof fn lemma_latest_push(rs: Seq<RecordSpec>, r: RecordSpec)
    ensures
        latest(rs.push(r)) == latest(rs).insert(r.0, r.1),
{
    assert(rs.push(r).drop_last() =~= rs);
}

/// A key with no record is not in `latest`.
proof fn lemma_latest_unwritten(rs: Seq<RecordSpec>, key: Seq<u8>)
    requires
        !written(rs, key),
    ensures
        !latest(rs).contains_key(key),
    decreases rs.len(),
{
    if rs.len() > 0 {
        let init = rs.drop_last();
        assert forall|i: int| 0 <= i < init.len() implies (#[trigger] init[i]).0 != key by {
            assert(init[i] == rs[i]);
        }
        lemma_latest_unwritten(init, key);
        assert(rs[rs.len() - 1].0 != key);
    }
}

proof fn lemma_contents_insert(m: Map<Seq<u8>, Seq<u8>>, key: Seq<u8>, value: Seq<u8>)
    ensures
        live(m.insert(key, value)) == after_insert(live(m), key, value),
{
    assert(live(m.insert(key, value)) =~= after_insert(live(m), key, value));
}

/// Appending `rec` to `log` keeps every earlier range of it.
proof fn lemma_index_matches_append(
    idx: Map<Seq<u8>, usize>,
    last: Map<Seq<u8>, Seq<u8>>,
    log: Seq<u8>,
    key: Seq<u8>,
    value: Seq<u8>,
)
    requires
        index_matches(idx, last, log),
        record_fits(key, value),
        log.len() <= usize::MAX,
    ensures
        index_matches(
            idx.insert(key, log.len() as usize),
            last.insert(key, value),
            log + record_bytes(key, value),
        ),
{
    let rec = record_bytes(key, value);
    let ext = log + rec;
    let idx2 = idx.insert(key, log.len() as usize);
    let last2 = last.insert(key, value);
    assert(idx2.dom() =~= last2.dom());
    assert forall|k: Seq<u8>| #[trigger] idx2.contains_key(k) implies {
        &&& record_fits(k, last2[k])
        &&& idx2[k] + record_bytes(k, last2[k]).len() <= ext.len()
        &&& ext.subrange(idx2[k] as int, idx2[k] + record_bytes(k, last2[k]).len())
            == record_bytes(k, last2[k])
    } by {
        if k == key {
            assert(ext.subrange(log.len() as int, ext.len() as int) =~= rec);
        } else {
            assert(idx.contains_key(k));
            let lo = idx[k] as int;
            let hi = idx[k] + record_bytes(k, last[k]).len();
            assert(ext.subrange(lo, hi) =~= log.subrange(lo, hi));
        }
    }
}

/// An append-only key-value store over an in-memory log.
pub struct Kvdb {
    index: Index,
    log: LogStore,
    records: Ghost<Seq<RecordSpec>>,
}

impl View for Kvdb {
    type V = Map<Seq<u8>, Seq<u8>>;

    /// The live keys and their values.
    closed spec fn view(&self) -> Map<Seq<u8>, Seq<u8>> {
        contents(self.records@)
    }
}

impl Kvdb {
    /// The bytes of the log.
    pub closed spec fn spec_log(&self) -> Seq<u8> {
        self.log@
    }

    /// The log is a whole number of records, the contents are what those
    /// records say, and the index points each key at its last record.
    pub closed spec fn wf(&self) -> bool {
        &&& self.index.wf()
        &&& parse_log(self.log@) == Some(self.records@)
        &&& index_matches(self.index@, latest(self.records@), self.log@)
    }

    /// The stored state is exactly what its log describes: loading the log's
    /// bytes into a store succeeds and gives the same contents.
    pub proof fn law_reload(&self)
        requires
            self.wf(),
        ensures
            parse_log(self.spec_log()) is Some,
            contents(parse_log(self.spec_log()).unwrap()) == self@,
    {
    }

    /// A key that no record of the log has is absent: getting or deleting
    /// it finds nothing.
    pub proof fn law_unwritten_absent(&self, key: Seq<u8>)
        requires
            self.wf(),
            !written(parse_log(self.spec_log()).unwrap(), key),
        ensures
            lookup(self@, key) is None,
    {
        lemma_latest_unwritten(self.records@, key);
    }

    /// An empty store over an empty log.
    pub fn new() -> (r: Kvdb)
        ensures
            r.wf(),
            r@ == Map::<Seq<u8>, Seq<u8>>::empty(),
            r.spec_log() == Seq::<u8>::empty(),
    {
        let r = Kvdb { index: Index::new(), log: LogStore::new(), records: Ghost(Seq::empty()) };
        assert(r@ =~= Map::<Seq<u8>, Seq<u8>>::empty());
        assert(r.index@.dom() =~= latest(r.records@).dom());
        r
    }

    /// Replaces the store's state by the one that `log` describes, rebuilt
    /// by a scan of the whole log. The scan ends cleanly only where the log
    /// ends at a record boundary; a partial trailing header or a record body
    /// that runs past the end is treated as corruption, not as a truncation
    /// to tolerate: the log is refused and the store is left as it was.
    pub fn load(&mut self, log: Vec<u8>) -> (r: Result<(), KvError>)
        ensures
            match r {
                Ok(()) => {
                    &&& parse_log(log@) is Some
                    &&& final(self).wf()
                    &&& final(self)@ == contents(parse_log(log@).unwrap())
                    &&& final(self).spec_log() == log@
                },
                Err(e) => {
                    &&& e == KvError::Corrupt
                    &&& parse_log(log@) is None
                    &&& *final(self) == *old(self)
                },
            },
    {
        match Self::rebuild_index(LogStore::from_bytes(log)) {
            Ok(db) => {
                *self = db;
                Ok(())
            },
            Err(e) => Err(e),
        }
    }

    /// Scans `log` from its start, record by record, pointing the index at
    /// each record's offset; the last record of a key wins.
    fn rebuild_index(log: LogStore) -> (r: Result<Kvdb, KvError>)
        ensures
            match r {
                Ok(db) => {
                    &&& parse_log(log@) is Some
                    &&& db.wf()
                    &&& db@ == contents(parse_log(log@).unwrap())
                    &&& db.spec_log() == log@
                },
                Err(e) => e == KvError::Corrupt && parse_log(log@) is None,
            },
    {
        let len = log.end();
        let mut pos: usize = 0;
        let mut index = Index::new();
        let ghost mut recs: Seq<RecordSpec> = Seq::empty();
        proof {
            assert(recs + parse_from(log@, 0).unwrap() =~= parse_from(log@, 0).unwrap());
            assert(index@.dom() =~= latest(recs).dom());
        }
        while pos < len
            invariant
                len == log@.len(),
                pos <= len,
                index.wf(),
                parse_from(log@, 0) == (match parse_from(log@, pos as int) {
                    Some(rest) => Some(recs + rest),
                    None => None,
                }),
                index_matches(index@, latest(recs), log@),
            decreases len - pos,
        {
            let header = match log.read_exact_at(pos, HEADER_LEN) {
                Some(h) => h,
                None => {
                    return Err(KvError::Corrupt);
                },
            };
            let (key_len, val_len) = match decode_header(header.as_slice()) {
                Some(lens) => lens,
                None => {
                    return Err(KvError::Corrupt);
                },
            };
            let rest = len - pos - HEADER_LEN;
            if key_len > rest as u64 {
                return Err(KvError::Corrupt);
            }
            let key_len = key_len as usize;
            if val_len > (rest - key_len) as u64 {
                return Err(KvError::Corrupt);
            }
            let val_len = val_len as usize;
            let key_start = pos + HEADER_LEN;
            let next = key_start + key_len + val_len;
            let key = match log.read_exact_at(key_start, key_len) {
                Some(k) => k,
                None => {
                    return Err(KvError::Corrupt);
                },
            };
            proof {
                let l = log@;
                let value = l.subrange(key_start + key_len, next as int);
                let k = key@;
                lemma_auto_spec_u64_to_from_le_bytes();
                lemma_record_header(k, value);
                let h = header@;
                assert(h.subrange(0, 8) =~= record_bytes(k, value).subrange(0, 8));
                assert(h.subrange(8, 16) =~= record_bytes(k, value).subrange(8, 16));
                assert(l.subrange(pos as int, next as int) =~= record_bytes(k, value));
                let tail = parse_from(l, next as int);
                if tail is Some {
                    assert(recs + parse_from(l, pos as int).unwrap() =~= recs.push((k, value))
                        + tail.unwrap());
                }
                lemma_latest_push(recs, (k, value));
                assert(index_matches(index@.insert(k, pos), latest(recs).insert(k, value), l)) by {
                    let idx2 = index@.insert(k, pos);
                    let last2 = latest(recs).insert(k, value);
                    assert(idx2.dom() =~= last2.dom());
                }
                recs = recs.push((k, value));
            }
            index.insert(key, pos);
            pos = next;
        }
        proof {
            assert(recs + Seq::<RecordSpec>::empty() =~= recs);
        }
        Ok(Kvdb { index, log, records: Ghost(recs) })
    }

    /// The value stored under `key`; `NotFound` where the key has no record
    /// or its last record is a tombstone.
    pub fn get(&self, key: &[u8]) -> (r: Result<Vec<u8>, KvError>)
        requires
            self.wf(),
        ensures
            match r {
                Ok(v) => lookup(self@, key@) == Some(v@),
                Err(e) => e == KvError::NotFound && lookup(self@, key@) is None,
            },
    {
        let offset = match self.index.get(key) {
            Some(o) => o,
            None => {
                return Err(KvError::NotFound);
            },
        };
        let ghost value = latest(self.records@)[key@];
        let ghost rec = record_bytes(key@, value);
        let ghost l = self.log@;
        let end = self.log.end();
        proof {
            lemma_record_header(key@, value);
            assert(l.subrange(offset as int, offset + HEADER_LEN) =~= rec.subrange(
                0,
                HEADER_LEN as int,
            ));
        }
        let header = self.log.read_exact_at(offset, HEADER_LEN).unwrap();
        let (_key_len, val_len) = decode_header(header.as_slice()).unwrap();
        if val_len == 0 {
            return Err(KvError::NotFound);
        }
        let val_start = offset + HEADER_LEN + key.len();
        proof {
            assert(l.subrange(val_start as int, val_start + val_len) =~= rec.subrange(
                HEADER_LEN + key@.len(),
                HEADER_LEN + key@.len() + value.len(),
            ));
        }
        let v = self.log.read_exact_at(val_start, val_len as usize).unwrap();
        Ok(v)
    }

    /// Appends the record of `key` and `value` and points the index at it.
    fn insert_by_key_ref(&mut self, key: &[u8], value: &[u8])
        requires
            old(self).wf(),
            old(self).spec_log().len() + HEADER_LEN + key@.len() + value@.len() <= usize::MAX,
        ensures
            final(self).wf(),
            final(self)@ == after_insert(old(self)@, key@, value@),
            final(self).spec_log() == old(self).spec_log() + record_bytes(key@, value@),
            final(self).spec_log().len() == old(self).spec_log().len() + HEADER_LEN + key@.len()
                + value@.len(),
    {
        let record = encode(key, value);
        proof {
            lemma_record_header(key@, value@);
            lemma_parse_from_append(self.log@, 0, key@, value@);
            lemma_index_matches_append(
                self.index@,
                latest(self.records@),
                self.log@,
                key@,
                value@,
            );
            lemma_latest_push(self.records@, (key@, value@));
            lemma_contents_insert(latest(self.records@), key@, value@);
        }
        let offset = self.log.append(record.as_slice());
        self.index.insert(slice_to_vec(key), offset);
        self.records = Ghost(self.records@.push((key@, value@)));
    }

    /// Stores `value` under `key` by appending a record, whatever the key's
    /// state was. An empty value is a tombstone: storing one deletes the key.
    pub fn insert(&mut self, key: &[u8], value: &[u8])
        requires
            old(self).wf(),
            old(self).spec_log().len() + HEADER_LEN + key@.len() + value@.len() <= usize::MAX,
        ensures
            final(self).wf(),
            final(self)@ == after_insert(old(self)@, key@, value@),
            final(self).spec_log() == old(self).spec_log() + record_bytes(key@, value@),
            final(self).spec_log().len() == old(self).spec_log().len() + HEADER_LEN + key@.len()
                + value@.len(),
    {
        self.insert_by_key_ref(key, value);
    }

    /// Deletes the live key `key` by appending a tombstone, and returns the
    /// value it had; `NotFound`, with nothing appended, where it is not live.
    pub fn delete(&mut self, key: &[u8]) -> (r: Result<Vec<u8>, KvError>)
        requires
            old(self).wf(),
            old(self).spec_log().len() + HEADER_LEN + key@.len() <= usize::MAX,
        ensures
            final(self).wf(),
            match r {
                Ok(v) => {
                    &&& lookup(old(self)@, key@) == Some(v@)
                    &&& final(self)@ == old(self)@.remove(key@)
                    &&& final(self).spec_log() == old(self).spec_log() + record_bytes(
                        key@,
                        Seq::empty(),
                    )
                    &&& final(self).spec_log().len() == old(self).spec_log().len() + HEADER_LEN
                        + key@.len()
                },
                Err(e) => {
                    &&& e == KvError::NotFound
                    &&& lookup(old(self)@, key@) is None
                    &&& *final(self) == *old(self)
                },
            },
    {
        let v = match self.get(key) {
            Ok(v) => v,
            Err(e) => {
                return Err(e);
            },
        };
        let empty: Vec<u8> = Vec::new();
        self.insert_by_key_ref(key, empty.as_slice());
        Ok(v)
    }

    /// The bytes of the log, for a caller that keeps them in a file.
    pub fn log_bytes(&self) -> (r: &[u8])
        ensures
            r@ == self.spec_log(),
    {
        self.log.as_bytes()
    }

    /// The length of the log: the offset at which the next record starts.
    pub fn log_len(&self) -> (r: usize)
        ensures
            r == self.spec_log().len(),
    {
        self.log.end()
    }
}

} // verus!
