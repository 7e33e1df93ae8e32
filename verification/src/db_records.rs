//! Typed file records.
//!
//! A variant of [`crate::records`] whose header also carries the payload's
//! format, so a reader can render the contents; sizes here are 32-bit.

use vstd::prelude::*;

use crate::records::KEY_SEPARATOR;

verus! {

/// The format of a record's payload.
pub enum DataType {
    JSON,
    TXT,
}

impl DataType {
    /// The file extension this format is written as.
    pub fn to_string(&self) -> (r: &'static str)
        ensures
            self is JSON ==> r@ == "json"@,
            self is TXT ==> r@ == "txt"@,
    {
        match self {
            Self::JSON => "json",
            Self::TXT => "txt",
        }
    }
}

/// One typed file payload, keyed.
pub struct Record {
    pub header: RecordHeader,
    pub data: Vec<u8>,
}

/// The front matter of a typed record: key, format, payload size.
pub struct RecordHeader {
    pub key: Vec<u8>,
    pub data_type: DataType,
    pub size: u32,
}

/// Builds the typed record for a file's contents.
pub fn create_record(key: Vec<u8>, data_type: DataType, data: Vec<u8>) -> (r: Record)
    requires
        data@.len() <= u32::MAX,
    ensures
        r.header.key@ == key@ + seq![KEY_SEPARATOR],
        r.header.size == data@.len(),
        r.header.data_type == data_type,
        r.data@ == data@,
{
    let mut k = key;
    k.push(KEY_SEPARATOR);
    let size = data.len() as u32;
    Record { header: RecordHeader { key: k, data_type, size }, data }
}

/// The 4-byte big-endian encoding of a 32-bit size.
pub open spec fn spec_u32_to_be_bytes(x: u32) -> Seq<u8> {
    seq![((x >> 24) & 0xff) as u8, ((x >> 16) & 0xff) as u8, ((x >> 8) & 0xff) as u8, (x
        & 0xff) as u8]
}

/// Serializes a typed record for storage: the key with its separator, the
/// format's extension, the size in big-endian order, then the payload.
pub fn serialize_record(rec: Record) -> (r: Vec<u8>)
    ensures
        r@ == rec.header.key@ + (match rec.header.data_type {
            DataType::JSON => "json"@,
            DataType::TXT => "txt"@,
        }).map_values(|c: char| c as u8) + spec_u32_to_be_bytes(rec.header.size) + rec.data@,
{
    let mut out: Vec<u8> = Vec::new();
    let mut i: usize = 0;
    while i < rec.header.key.len()
        invariant
            0 <= i <= rec.header.key.len(),
            out@ =~= rec.header.key@.subrange(0, i as int),
        decreases rec.header.key.len() - i,
    {
        out.push(rec.header.key[i]);
        proof {
            assert(out@ =~= rec.header.key@.subrange(0, i + 1));
        }
        i = i + 1;
    }
    proof {
        assert(out@ =~= rec.header.key@);
    }
    let ghost head1 = out@;
    match rec.header.data_type {
        DataType::JSON => {
            out.push(106);
            out.push(115);
            out.push(111);
            out.push(110);
            proof {
                reveal_strlit("json");
                assert(out@ =~= head1 + "json"@.map_values(|c: char| c as u8));
            }
        },
        DataType::TXT => {
            out.push(116);
            out.push(120);
            out.push(116);
            proof {
                reveal_strlit("txt");
                assert(out@ =~= head1 + "txt"@.map_values(|c: char| c as u8));
            }
        },
    }
    let ghost head2 = out@;
    let x = rec.header.size;
    out.push((x >> 24) as u8);
    out.push((x >> 16) as u8);
    out.push((x >> 8) as u8);
    out.push(x as u8);
    proof {
        assert(((x >> 24) & 0xff) as u8 == (x >> 24) as u8) by (bit_vector);
        assert(((x >> 16) & 0xff) as u8 == (x >> 16) as u8) by (bit_vector);
        assert(((x >> 8) & 0xff) as u8 == (x >> 8) as u8) by (bit_vector);
        assert((x & 0xff) as u8 == x as u8) by (bit_vector);
        assert(out@ =~= head2 + spec_u32_to_be_bytes(x));
    }
    let ghost head3 = out@;
    let mut i: usize = 0;
    while i < rec.data.len()
        invariant
            0 <= i <= rec.data.len(),
            out@ =~= head3 + rec.data@.subrange(0, i as int),
        decreases rec.data.len() - i,
    {
        out.push(rec.data[i]);
        proof {
            assert(out@ =~= head3 + rec.data@.subrange(0, i + 1));
        }
        i = i + 1;
    }
    proof {
        assert(out@ =~= rec.header.key@ + (match rec.header.data_type {
            DataType::JSON => "json"@,
            DataType::TXT => "txt"@,
        }).map_values(|c: char| c as u8) + spec_u32_to_be_bytes(rec.header.size) + rec.data@);
    }
    out
}

} // verus!
