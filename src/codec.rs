//! Record codec: the on-disk layout of one key-value record, and the
//! description of a whole log as a sequence of records.
//!
//! A record is `key_len ++ val_len ++ key ++ value`, both lengths as 8-byte
//! little-endian unsigned integers. Records follow one another with no
//! padding. A record whose value is empty is a tombstone.
use vstd::bytes::{
    lemma_auto_spec_u64_to_from_le_bytes, spec_u64_from_le_bytes, spec_u64_to_le_bytes,
    u64_from_le_bytes, u64_to_le_bytes,
};
use vstd::prelude::*;
use vstd::slice::slice_subrange;

verus! {

/// Number of bytes in a record header.
pub const HEADER_LEN: usize = 16;

/// A record as a pair of key and value.
pub type RecordSpec = (Seq<u8>, Seq<u8>);

/// The bytes of the record that stores `value` under `key`.
pub open spec fn record_bytes(key: Seq<u8>, value: Seq<u8>) -> Seq<u8> {
    spec_u64_to_le_bytes(key.len() as u64) + spec_u64_to_le_bytes(value.len() as u64) + key
        + value
}

/// Both lengths of the record fit in its header fields.
pub open spec fn record_fits(key: Seq<u8>, value: Seq<u8>) -> bool {
    key.len() <= u64::MAX && value.len() <= u64::MAX
}

/// The key length that a header holds in its first eight bytes.
pub open spec fn header_key_len(header: Seq<u8>) -> u64 {
    spec_u64_from_le_bytes(header.subrange(0, 8))
}

/// The value length that a header holds in its second eight bytes.
pub open spec fn header_val_len(header: Seq<u8>) -> u64 {
    spec_u64_from_le_bytes(header.subrange(8, 16))
}

/// The records that `log` holds from offset `pos` to its end, in order, or
/// `None` where those bytes are not a whole number of records (a partial
/// header, or a header whose lengths run past the end).
pub open spec fn parse_from(log: Seq<u8>, pos: int) -> Option<Seq<RecordSpec>>
    decreases log.len() - pos,
{
    if pos < 0 || pos > log.len() {
        None
    } else if pos == log.len() {
        Some(Seq::empty())
    } else if log.len() - pos < HEADER_LEN {
        None
    } else {
        let header = log.subrange(pos, pos + HEADER_LEN);
        let key_end = pos + HEADER_LEN + header_key_len(header);
        let next = key_end + header_val_len(header);
        if next > log.len() {
            None
        } else {
            match parse_from(log, next) {
                Some(rest) => Some(
                    seq![(log.subrange(pos + HEADER_LEN, key_end), log.subrange(key_end, next))]
                        + rest,
                ),
                None => None,
            }
        }
    }
}

/// The records of a whole log, or `None` where the log is not a whole
/// number of records.
pub open spec fn parse_log(log: Seq<u8>) -> Option<Seq<RecordSpec>> {
    parse_from(log, 0)
}

/// The bytes of a record read back as a header give the record's lengths.
pub proof fn lemma_record_header(key: Seq<u8>, value: Seq<u8>)
    requires
        record_fits(key, value),
    ensures
        record_bytes(key, value).len() == HEADER_LEN + key.len() + value.len(),
        header_key_len(record_bytes(key, value).subrange(0, HEADER_LEN as int)) == key.len(),
        header_val_len(record_bytes(key, value).subrange(0, HEADER_LEN as int)) == value.len(),
        record_bytes(key, value).subrange(HEADER_LEN as int, HEADER_LEN + key.len()) == key,
        record_bytes(key, value).subrange(
            HEADER_LEN + key.len(),
            HEADER_LEN + key.len() + value.len(),
        ) == value,
{
    lemma_auto_spec_u64_to_from_le_bytes();
    let kb = spec_u64_to_le_bytes(key.len() as u64);
    let vb = spec_u64_to_le_bytes(value.len() as u64);
    let r = record_bytes(key, value);
    let h = r.subrange(0, HEADER_LEN as int);
    assert(h.subrange(0, 8) =~= kb);
    assert(h.subrange(8, 16) =~= vb);
    assert(r.subrange(HEADER_LEN as int, HEADER_LEN + key.len()) =~= key);
    assert(r.subrange(HEADER_LEN + key.len(), HEADER_LEN + key.len() + value.len()) =~= value);
}

/// Appending one record to bytes that parse from `pos` adds that record at
/// the end of what they parse to.
pub proof fn lemma_parse_from_append(
    log: Seq<u8>,
    pos: int,
    key: Seq<u8>,
    value: Seq<u8>,
)
    requires
        record_fits(key, value),
        parse_from(log, pos) is Some,
    ensures
        parse_from(log + record_bytes(key, value), pos) == Some(
            parse_from(log, pos).unwrap().push((key, value)),
        ),
    decreases log.len() - pos,
{
    let rec = record_bytes(key, value);
    let ext = log + rec;
    lemma_record_header(key, value);
    if pos == log.len() {
        let next = pos + HEADER_LEN + key.len() + value.len();
        assert(ext.subrange(pos, pos + HEADER_LEN) =~= rec.subrange(0, HEADER_LEN as int));
        assert(ext.subrange(pos + HEADER_LEN, pos + HEADER_LEN + key.len()) =~= rec.subrange(
            HEADER_LEN as int,
            HEADER_LEN + key.len(),
        ));
        assert(ext.subrange(pos + HEADER_LEN + key.len(), next) =~= rec.subrange(
            HEADER_LEN + key.len(),
            HEADER_LEN + key.len() + value.len(),
        ));
        assert(next == ext.len());
        assert(parse_from(ext, next) == Some(Seq::<RecordSpec>::empty()));
        assert(seq![(key, value)] + Seq::<RecordSpec>::empty() =~= Seq::<RecordSpec>::empty().push(
            (key, value),
        ));
    } else {
        let header = log.subrange(pos, pos + HEADER_LEN);
        let key_end = pos + HEADER_LEN + header_key_len(header);
        let next = key_end + header_val_len(header);
        assert(ext.subrange(pos, pos + HEADER_LEN) =~= header);
        assert(ext.subrange(pos + HEADER_LEN, key_end) =~= log.subrange(pos + HEADER_LEN, key_end));
        assert(ext.subrange(key_end, next) =~= log.subrange(key_end, next));
        lemma_parse_from_append(log, next, key, value);
        let first = seq![(log.subrange(pos + HEADER_LEN, key_end), log.subrange(key_end, next))];
        let rest = parse_from(log, next).unwrap();
        assert(first + rest.push((key, value)) =~= (first + rest).push((key, value)));
    }
}

/// Encodes one record: the key length and the value length as 8-byte
/// little-endian integers, then the key, then the value.
pub fn encode(key: &[u8], value: &[u8]) -> (r: Vec<u8>)
    ensures
        r@ == record_bytes(key@, value@),
{
    let mut r = u64_to_le_bytes(key.len() as u64);
    let vb = u64_to_le_bytes(value.len() as u64);
    extend_bytes(&mut r, vb.as_slice());
    extend_bytes(&mut r, key);
    extend_bytes(&mut r, value);
    r
}

/// Appends the bytes of `src` to `dst`.
pub fn extend_bytes(dst: &mut Vec<u8>, src: &[u8])
    ensures
        final(dst)@ == old(dst)@ + src@,
{
    let ghost start = dst@;
    let mut i: usize = 0;
    while i < src.len()
        invariant
            i <= src@.len(),
            dst@ == start + src@.subrange(0, i as int),
        decreases src@.len() - i,
    {
        dst.push(src[i]);
        assert(src@.subrange(0, i + 1) =~= src@.subrange(0, i as int).push(src@[i as int]));
        i = i + 1;
    }
    assert(src@.subrange(0, i as int) =~= src@);
}

/// Reads the two lengths of a record header from the first sixteen bytes of
/// `bytes`; `None` where fewer than sixteen bytes are given.
pub fn decode_header(bytes: &[u8]) -> (r: Option<(u64, u64)>)
    ensures
        match r {
            Some((key_len, val_len)) => {
                &&& bytes@.len() >= HEADER_LEN
                &&& key_len == header_key_len(bytes@)
                &&& val_len == header_val_len(bytes@)
            },
            None => bytes@.len() < HEADER_LEN,
        },
{
    if bytes.len() < HEADER_LEN {
        return None;
    }
    let key_len = u64_from_le_bytes(slice_subrange(bytes, 0, 8));
    let val_len = u64_from_le_bytes(slice_subrange(bytes, 8, 16));
    Some((key_len, val_len))
}

} // verus!
