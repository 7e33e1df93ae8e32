//! Page-granular access to the database file image.
//!
//! The pager owns an in-memory image of the database file: a byte string
//! whose first 8 bytes hold the root pointer (big-endian, `0` for an empty
//! tree) and whose remainder holds node pages. An embedding program loads
//! the file into the image and writes the image back; every operation of
//! the store is defined, and verified, over the image alone.

use vstd::prelude::*;

use crate::bytes::{push_u64_be, read_u64_be, spec_u64_from_be_bytes, spec_u64_to_be_bytes};

verus! {

/// Size in bytes of one node page.
pub const PAGE_SIZE: usize = 4096;

/// Size in bytes of the file header (the root pointer).
pub const HEADER_SIZE: usize = 8;

/// Access to the database file image.
pub struct Pager {
    data: Vec<u8>,
}

impl View for Pager {
    type V = Seq<u8>;

    closed spec fn view(&self) -> Seq<u8> {
        self.data@
    }
}

/// The root offset the header of `disk` designates: `0` means an empty tree.
pub open spec fn spec_root_pointer(disk: Seq<u8>) -> u64
    recommends
        disk.len() >= HEADER_SIZE,
{
    spec_u64_from_be_bytes(disk.subrange(0, HEADER_SIZE as int))
}

impl Pager {
    /// A fresh image: an 8-byte header of zeros, the empty tree.
    pub fn new() -> (pager: Pager)
        ensures
            pager@ == Seq::new(HEADER_SIZE as nat, |i: int| 0u8),
            spec_root_pointer(pager@) == 0,
    {
        let mut data: Vec<u8> = Vec::new();
        push_u64_be(&mut data, 0);
        proof {
            assert(data@ =~= Seq::new(HEADER_SIZE as nat, |i: int| 0u8)) by {
                assert(spec_u64_to_be_bytes(0)[0] == 0u8) by (bit_vector);
                assert(spec_u64_to_be_bytes(0)[1] == 0u8) by (bit_vector);
                assert(spec_u64_to_be_bytes(0)[2] == 0u8) by (bit_vector);
                assert(spec_u64_to_be_bytes(0)[3] == 0u8) by (bit_vector);
                assert(spec_u64_to_be_bytes(0)[4] == 0u8) by (bit_vector);
                assert(spec_u64_to_be_bytes(0)[5] == 0u8) by (bit_vector);
                assert(spec_u64_to_be_bytes(0)[6] == 0u8) by (bit_vector);
                assert(spec_u64_to_be_bytes(0)[7] == 0u8) by (bit_vector);
            }
            assert(data@.subrange(0, HEADER_SIZE as int) =~= data@);
            assert(spec_u64_from_be_bytes(data@) == 0) by {
                assert((0u64 as u64) << 56 | (0u64 as u64) << 48 | (0u64 as u64) << 40 | (
                0u64 as u64) << 32 | (0u64 as u64) << 24 | (0u64 as u64) << 16 | (0u64 as u64) << 8
                    | (0u64 as u64) == 0u64) by (bit_vector);
            }
        }
        Pager { data }
    }

    /// Wraps the bytes of an existing database file.
    pub fn from_bytes(data: Vec<u8>) -> (pager: Pager)
        requires
            data@.len() >= HEADER_SIZE,
        ensures
            pager@ == data@,
    {
        Pager { data }
    }

    /// The bytes of the image, for writing back to the file.
    pub fn as_bytes(&self) -> (r: &Vec<u8>)
        ensures
            r@ == self@,
    {
        &self.data
    }

    /// Reads `length` bytes starting at `offset`; fails iff out of range.
    pub fn read_at(&self, offset: u64, length: usize) -> (r: Result<Vec<u8>, ()>)
        ensures
            r matches Ok(bytes) ==> {
                &&& offset + length <= self@.len()
                &&& bytes@ == self@.subrange(offset as int, offset + length)
            },
            r is Err <==> offset + length > self@.len(),
    {
        if offset > self.data.len() as u64 || (length as u64) > self.data.len() as u64 - offset {
            return Err(());
        }
        let start = offset as usize;
        let mut bytes: Vec<u8> = Vec::new();
        let mut i: usize = 0;
        while i < length
            invariant
                start + length <= self.data.len(),
                0 <= i <= length,
                bytes@ =~= self@.subrange(start as int, start + i),
            decreases length - i,
        {
            bytes.push(self.data[start + i]);
            proof {
                assert(bytes@ =~= self@.subrange(start as int, start + i + 1));
            }
            i = i + 1;
        }
        Ok(bytes)
    }

    /// Writes `bytes` at `offset`, extending the image if needed.
    pub fn write_at(&mut self, offset: u64, bytes: &Vec<u8>)
        requires
            offset <= old(self)@.len(),
            offset + bytes@.len() <= usize::MAX,
        ensures
            final(self)@ == spec_write(old(self)@, offset as int, bytes@),
    {
        let mut i: usize = 0;
        let start = offset as usize;
        while i < bytes.len()
            invariant
                start <= old(self)@.len(),
                0 <= i <= bytes.len(),
                start + bytes@.len() <= usize::MAX,
                start <= self.data.len(),
                self@ =~= spec_write(old(self)@, start as int, bytes@.subrange(0, i as int)),
            decreases bytes.len() - i,
        {
            let b = bytes[i];
            if i < self.data.len() - start {
                self.data[start + i] = b;
            } else {
                self.data.push(b);
            }
            proof {
                assert(self@ =~= spec_write(old(self)@, start as int, bytes@.subrange(0, i + 1)));
            }
            i = i + 1;
        }
        proof {
            assert(bytes@.subrange(0, bytes@.len() as int) =~= bytes@);
        }
    }

    /// The end-of-file offset: where the next node page will be written.
    pub fn get_end_offset(&self) -> (r: u64)
        ensures
            r == self@.len(),
    {
        self.data.len() as u64
    }

    /// Writes the 8-byte big-endian root offset into the file header.
    pub fn update_root_offset(&mut self, root_offset: u64)
        requires
            old(self)@.len() >= HEADER_SIZE,
        ensures
            final(self)@.len() == old(self)@.len(),
            final(self)@ == spec_write(old(self)@, 0, spec_u64_to_be_bytes(root_offset)),
            spec_root_pointer(final(self)@) == root_offset,
            final(self)@.skip(HEADER_SIZE as int) == old(self)@.skip(HEADER_SIZE as int),
    {
        let mut bytes: Vec<u8> = Vec::new();
        push_u64_be(&mut bytes, root_offset);
        self.write_at(0, &bytes);
        proof {
            crate::bytes::lemma_u64_be_bytes_roundtrip();
            assert(self@.subrange(0, HEADER_SIZE as int) =~= spec_u64_to_be_bytes(root_offset));
            assert(self@.skip(HEADER_SIZE as int) =~= old(self)@.skip(HEADER_SIZE as int));
        }
    }
}

/// The image after writing `bytes` at `offset`: bytes in range replaced,
/// the image extended where the write runs past the end.
pub open spec fn spec_write(disk: Seq<u8>, offset: int, bytes: Seq<u8>) -> Seq<u8>
    recommends
        0 <= offset <= disk.len(),
{
    let end = if offset + bytes.len() > disk.len() {
        offset + bytes.len()
    } else {
        disk.len() as int
    };
    Seq::new(
        end as nat,
        |i: int|
            if offset <= i < offset + bytes.len() {
                bytes[i - offset]
            } else {
                disk[i]
            },
    )
}

} // verus!
