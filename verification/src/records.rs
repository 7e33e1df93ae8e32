//! File records.
//!
//! A record carries one file's contents as the payload of a store entry:
//! the key (terminated by a separator byte), the payload size as an 8-byte
//! big-endian word, and the payload bytes. The embedding program reads the
//! file; building and serializing the record is pure.

use vstd::prelude::*;

use crate::bytes::{push_u64_be, spec_u64_to_be_bytes};

verus! {

/// The byte that ends the key inside a serialized record.
pub const KEY_SEPARATOR: u8 = 59;

/// One file payload, keyed.
pub struct Record {
    pub header: RecordHeader,
    pub data: Vec<u8>,
}

/// The fixed front matter of a record: its key and its payload size.
pub struct RecordHeader {
    pub key: Vec<u8>,
    pub size: u64,
}

/// Builds the record for a file's contents: the key gains its separator,
/// and the recorded size is the payload's length.
pub fn create_record(key: Vec<u8>, data: Vec<u8>) -> (r: Record)
    ensures
        r.header.key@ == key@ + seq![KEY_SEPARATOR],
        r.header.size == data@.len(),
        r.data@ == data@,
{
    let mut k = key;
    k.push(KEY_SEPARATOR);
    let size = data.len() as u64;
    Record { header: RecordHeader { key: k, size }, data }
}

/// Serializes a record for storage.
pub fn serialize_record(rec: &Record) -> (r: Vec<u8>)
    ensures
        r@ == rec.header.key@ + spec_u64_to_be_bytes(rec.header.size) + rec.data@,
{
    let mut out: Vec<u8> = Vec::new();
    let mut i: usize = 0;
    while i < rec.header.key.len()
        invariant
            0 <= i <= rec.header.key.len(),
            out@ =~= rec.header.key@.subrange(0, i as int),
        decreases rec.header.key.len() - i,
    {
        out.push(rec.header.key[i]);
        proof {
            assert(out@ =~= rec.header.key@.subrange(0, i + 1));
        }
        i = i + 1;
    }
    proof {
        assert(out@ =~= rec.header.key@);
    }
    push_u64_be(&mut out, rec.header.size);
    let mut i: usize = 0;
    let ghost head = out@;
    while i < rec.data.len()
        invariant
            0 <= i <= rec.data.len(),
            out@ =~= head + rec.data@.subrange(0, i as int),
        decreases rec.data.len() - i,
    {
        out.push(rec.data[i]);
        proof {
            assert(out@ =~= head + rec.data@.subrange(0, i + 1));
        }
        i = i + 1;
    }
    proof {
        assert(out@ =~= rec.header.key@ + spec_u64_to_be_bytes(rec.header.size) + rec.data@);
    }
    out
}

} // verus!
