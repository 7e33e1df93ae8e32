//! A self-describing database header.
//!
//! A richer header layout than the bare 8-byte root pointer the engine
//! commits to: a magic number, a format version, the optional root offset,
//! the page size, and an optional free-list head. Encoding and decoding
//! invert each other.

use vstd::prelude::*;

use crate::bytes::{
    push_u64_be, read_u64_be, spec_u64_from_be_bytes, spec_u64_to_be_bytes,
    lemma_u64_be_bytes_roundtrip,
};

verus! {

/// The number of bytes a serialized header takes.
pub const DB_HEADER_SIZE: usize = 38;

/// A self-describing database header.
pub struct DatabaseHeader {
    pub magic_number: [u8; 4],
    pub version: u32,
    pub root_offset: Option<u64>,
    pub page_size: u32,
    pub free_list_head: Option<u64>,
}

/// The serialized form of a header: the magic number, the version, a
/// presence byte and 8 bytes for the root offset, the page size, and a
/// presence byte and 8 bytes for the free-list head.
pub open spec fn spec_header_bytes(
    magic: Seq<u8>,
    version: u32,
    root_offset: Option<u64>,
    page_size: u32,
    free_list_head: Option<u64>,
) -> Seq<u8> {
    magic + spec_u64_to_be_bytes(version as u64) + seq![
        if root_offset is Some {
            1u8
        } else {
            0u8
        },
    ] + spec_u64_to_be_bytes(
        match root_offset {
            Some(x) => x,
            None => 0,
        },
    ) + spec_u64_to_be_bytes(page_size as u64) + seq![
        if free_list_head is Some {
            1u8
        } else {
            0u8
        },
    ] + spec_u64_to_be_bytes(
        match free_list_head {
            Some(x) => x,
            None => 0,
        },
    )
}

/// The payloads a header deserializes from: the right length, version and
/// page size within 32 bits, and well-formed presence bytes.
pub open spec fn spec_header_parses(data: Seq<u8>) -> bool {
    &&& data.len() == DB_HEADER_SIZE
    &&& spec_u64_from_be_bytes(data.subrange(4, 12)) <= u32::MAX
    &&& (data[12] == 0 || data[12] == 1)
    &&& (data[12] == 0 ==> spec_u64_from_be_bytes(data.subrange(13, 21)) == 0)
    &&& spec_u64_from_be_bytes(data.subrange(21, 29)) <= u32::MAX
    &&& (data[29] == 0 || data[29] == 1)
    &&& (data[29] == 0 ==> spec_u64_from_be_bytes(data.subrange(30, 38)) == 0)
}

impl DatabaseHeader {
    /// A fresh header for an empty store with the engine's page size.
    pub fn new() -> (h: DatabaseHeader)
        ensures
            h.magic_number@ == seq![0x52u8, 0x55u8, 0x53u8, 0x54u8],
            h.version == 1,
            h.root_offset is None,
            h.page_size == crate::pager::PAGE_SIZE,
            h.free_list_head is None,
    {
        let h = DatabaseHeader {
            magic_number: [0x52, 0x55, 0x53, 0x54],
            version: 1,
            root_offset: None,
            page_size: 4096,
            free_list_head: None,
        };
        proof {
            assert(h.magic_number@ =~= seq![0x52u8, 0x55u8, 0x53u8, 0x54u8]);
        }
        h
    }

    /// Serializes the header.
    pub fn to_bytes(&self) -> (r: Vec<u8>)
        ensures
            r@ == spec_header_bytes(
                self.magic_number@,
                self.version,
                self.root_offset,
                self.page_size,
                self.free_list_head,
            ),
            r@.len() == DB_HEADER_SIZE,
    {
        let mut out: Vec<u8> = Vec::new();
        out.push(self.magic_number[0]);
        out.push(self.magic_number[1]);
        out.push(self.magic_number[2]);
        out.push(self.magic_number[3]);
        proof {
            assert(out@ =~= self.magic_number@);
        }
        push_u64_be(&mut out, self.version as u64);
        match self.root_offset {
            Some(x) => {
                out.push(1);
                push_u64_be(&mut out, x);
            },
            None => {
                out.push(0);
                push_u64_be(&mut out, 0);
            },
        }
        push_u64_be(&mut out, self.page_size as u64);
        match self.free_list_head {
            Some(x) => {
                out.push(1);
                push_u64_be(&mut out, x);
            },
            None => {
                out.push(0);
                push_u64_be(&mut out, 0);
            },
        }
        proof {
            assert(out@ =~= spec_header_bytes(
                self.magic_number@,
                self.version,
                self.root_offset,
                self.page_size,
                self.free_list_head,
            ));
        }
        out
    }

    /// Deserializes a header; fails exactly on a wrong length, an
    /// out-of-range word, or a malformed presence byte.
    pub fn from_bytes(data: &Vec<u8>) -> (r: Result<DatabaseHeader, ()>)
        ensures
            r matches Ok(h) ==> data@ == spec_header_bytes(
                h.magic_number@,
                h.version,
                h.root_offset,
                h.page_size,
                h.free_list_head,
            ),
            r is Ok <==> spec_header_parses(data@),
    {
        if data.len() != DB_HEADER_SIZE {
            return Err(());
        }
        let magic = [data[0], data[1], data[2], data[3]];
        let version64 = read_u64_be(data, 4);
        proof {
            assert(data@.subrange(4, 12) =~= data@.subrange(4int, 12int));
        }
        if version64 > u32::MAX as u64 {
            return Err(());
        }
        let root_flag = data[12];
        if root_flag > 1 {
            return Err(());
        }
        let root64 = read_u64_be(data, 13);
        proof {
            assert(data@.subrange(13, 21) =~= data@.subrange(13int, 21int));
        }
        let root_offset = if root_flag == 1 {
            Some(root64)
        } else {
            if root64 != 0 {
                return Err(());
            }
            None
        };
        let page64 = read_u64_be(data, 21);
        proof {
            assert(data@.subrange(21, 29) =~= data@.subrange(21int, 29int));
        }
        if page64 > u32::MAX as u64 {
            return Err(());
        }
        let free_flag = data[29];
        if free_flag > 1 {
            return Err(());
        }
        let free64 = read_u64_be(data, 30);
        proof {
            assert(data@.subrange(30, 38) =~= data@.subrange(30int, 38int));
        }
        let free_list_head = if free_flag == 1 {
            Some(free64)
        } else {
            if free64 != 0 {
                return Err(());
            }
            None
        };
        let h = DatabaseHeader {
            magic_number: magic,
            version: version64 as u32,
            root_offset,
            page_size: page64 as u32,
            free_list_head,
        };
        proof {
            lemma_u64_be_bytes_roundtrip();
            assert(data@.subrange(4, 12) =~= data@.subrange(4int, 12int));
            assert(data@.subrange(13, 21) =~= data@.subrange(13int, 21int));
            assert(data@.subrange(21, 29) =~= data@.subrange(21int, 29int));
            assert(data@.subrange(30, 38) =~= data@.subrange(30int, 38int));
            assert(data@ =~= spec_header_bytes(
                h.magic_number@,
                h.version,
                h.root_offset,
                h.page_size,
                h.free_list_head,
            ));
        }
        Ok(h)
    }
}

} // verus!
