//! The store: a tree and its file image, kept together.
//!
//! One `KVDB` owns the pager and the tree handle for the lifetime of a
//! session. Values stored through `put` are file records (see
//! [`crate::records`]); `get` returns the stored bytes. An embedding
//! program reads the database file into the store and writes the image
//! back after each mutation.

use vstd::prelude::*;

use crate::btree::{BTree, BtError};
use crate::bytes::spec_u64_to_be_bytes;
use crate::kvs::{kvs_insert, kvs_lookup, kvs_remove};
use crate::node::KV_LIMIT;
use crate::pager::{Pager, PAGE_SIZE};
use crate::records::{create_record, serialize_record, KEY_SEPARATOR};

verus! {

/// An open key-value store.
pub struct KVDB {
    btree: BTree,
    pager: Pager,
}

impl KVDB {
    /// The store is consistent: the tree is well-formed on the image and
    /// its root is the committed one.
    pub closed spec fn wf(self) -> bool {
        self.btree.wf(self.pager@) && self.btree.committed(self.pager@)
    }

    /// The contents of the store: its key-value pairs in key order.
    pub closed spec fn contents(self) -> Seq<(Seq<u8>, Seq<u8>)> {
        self.btree.as_kvs(self.pager@)
    }

    /// The bytes of the store's file image.
    pub closed spec fn image(self) -> Seq<u8> {
        self.pager@
    }

    /// The bytes of the file image, for writing back to disk.
    pub fn as_bytes(&self) -> (r: &Vec<u8>)
        ensures
            self.wf() ==> r@.len() >= crate::pager::HEADER_SIZE,
    {
        self.pager.as_bytes()
    }

    /// Opens a store over the bytes of an existing database file, walking
    /// the whole tree to check it; fails on any corruption. An opened
    /// store holds exactly what the image's committed tree holds.
    pub fn open(data: Vec<u8>) -> (r: Result<KVDB, BtError>)
        ensures
            r matches Ok(s) ==> {
                &&& s.wf()
                &&& s.image() == data@
                &&& BTree::committed_tree(data@).wf(data@)
                &&& s.contents() == BTree::committed_tree(data@).as_kvs(data@)
            },
            data@.len() < crate::pager::HEADER_SIZE ==> r is Err,
    {
        if data.len() < crate::pager::HEADER_SIZE {
            return Err(BtError::Corrupt);
        }
        let pager = Pager::from_bytes(data);
        let btree = match BTree::load_from_pager(&pager) {
            Err(e) => {
                return Err(e);
            },
            Ok(t) => t,
        };
        if !btree.validate(&pager) {
            return Err(BtError::Corrupt);
        }
        Ok(KVDB { btree, pager })
    }

    /// A fresh, empty store.
    pub fn create_new() -> (r: KVDB)
        ensures
            r.wf(),
            r.contents() == Seq::<(Seq<u8>, Seq<u8>)>::empty(),
    {
        let pager = Pager::new();
        let btree = BTree::new(None);
        KVDB { btree, pager }
    }

    /// Stores a file's contents under `key`, as a serialized record; an
    /// equal key's record is overwritten. Fails exactly when the record is
    /// too large for a node page, or the image cannot grow by a page.
    pub fn put(&mut self, key: Vec<u8>, data: Vec<u8>) -> (r: Result<(), BtError>)
        requires
            old(self).wf(),
        ensures
            final(self).wf(),
            r is Ok ==> final(self).contents() == kvs_insert(
                old(self).contents(),
                key@,
                key@ + seq![KEY_SEPARATOR] + spec_u64_to_be_bytes(data@.len() as u64) + data@,
            ),
            r is Err ==> final(self).contents() == old(self).contents(),
            r == Err::<(), BtError>(BtError::TooLarge) <==> key@.len() + (key@.len() + 9
                + data@.len()) > KV_LIMIT,
            r is Err ==> r == Err::<(), BtError>(BtError::TooLarge) || (r == Err::<(), BtError>(
                BtError::Full,
            ) && final(self).image().len() + PAGE_SIZE > usize::MAX),
    {
        let record = create_record(crate::bytes::clone_bytes(&key), data);
        let value = serialize_record(&record);
        let r = self.btree.insert(key, value, &mut self.pager);
        match r {
            Ok(()) => Ok(()),
            Err(e) => Err(e),
        }
    }

    /// Returns the record bytes stored under `key`, or `None` if absent.
    pub fn get(&self, key: &Vec<u8>) -> (r: Option<Vec<u8>>)
        requires
            self.wf(),
        ensures
            kvs_lookup(self.contents(), key@) matches Some(v) ==> r matches Some(rv) && rv@ == v,
            kvs_lookup(self.contents(), key@) is None ==> r is None,
    {
        self.btree.search(key, &self.pager)
    }

    /// Removes the record stored under `key`; an absent key is a no-op.
    /// Fails exactly when the image cannot grow by a page.
    pub fn delete(&mut self, key: &Vec<u8>) -> (r: Result<(), BtError>)
        requires
            old(self).wf(),
        ensures
            final(self).wf(),
            r is Ok ==> final(self).contents() == kvs_remove(old(self).contents(), key@),
            r is Err ==> r == Err::<(), BtError>(BtError::Full) && final(self).contents() == old(
                self,
            ).contents() && final(self).image().len() + PAGE_SIZE > usize::MAX,
    {
        self.btree.delete(key, &mut self.pager)
    }
}

} // verus!
