//! One entry of a namespace listing: an immutable snapshot of the latest
//! record stored under a path.
use vstd::prelude::*;

use crate::hexid::{copy_bytes, UAuthorId, UHash, UNamespaceId};

verus! {

/// A file entry: path, author, logical write time, and the address and
/// length of the content.
#[derive(Debug)]
pub struct UEntry {
    pub key: Vec<u8>,
    pub author: UAuthorId,
    pub timestamp: u64,
    pub content_hash: UHash,
    pub content_len: u64,
    pub namespace: UNamespaceId,
}

/// The mathematical content of an entry.
pub struct EntryView {
    pub key: Seq<u8>,
    pub author: Seq<u8>,
    pub timestamp: u64,
    pub hash: Seq<u8>,
    pub len: u64,
    pub namespace: Seq<u8>,
}

impl View for UEntry {
    type V = EntryView;

    open spec fn view(&self) -> EntryView {
        EntryView {
            key: self.key@,
            author: self.author@,
            timestamp: self.timestamp,
            hash: self.content_hash@,
            len: self.content_len,
            namespace: self.namespace@,
        }
    }
}

/// The views of a list of entries, in order.
pub open spec fn entry_views(s: Seq<UEntry>) -> Seq<EntryView> {
    Seq::new(s.len(), |i: int| s[i]@)
}

impl UEntry {
    /// Well-formed: the identifiers have their fixed width.
    pub open spec fn wf(&self) -> bool {
        &&& self.author.wf()
        &&& self.content_hash.wf()
        &&& self.namespace.wf()
    }

    /// The path this entry is stored under.
    pub fn key(&self) -> (r: Vec<u8>)
        ensures
            r@ == self.key@,
    {
        copy_bytes(self.key.as_slice())
    }

    /// The content address of the stored bytes.
    pub fn content_hash(&self) -> (r: UHash)
        ensures
            r@ == self.content_hash@,
    {
        self.content_hash.dup()
    }

    /// The length of the stored bytes.
    pub fn content_len(&self) -> (r: u64)
        ensures
            r == self.content_len,
    {
        self.content_len
    }

    /// The logical write time the store resolved for this entry.
    pub fn timestamp(&self) -> (r: u64)
        ensures
            r == self.timestamp,
    {
        self.timestamp
    }

    /// The namespace the entry belongs to.
    pub fn namespace(&self) -> (r: UNamespaceId)
        ensures
            r@ == self.namespace@,
    {
        self.namespace.dup()
    }

    /// The author that wrote the entry.
    pub fn author(&self) -> (r: UAuthorId)
        ensures
            r@ == self.author@,
    {
        self.author.dup()
    }

    /// True when the entry stores no bytes at all.
    pub fn is_empty(&self) -> (r: bool)
        ensures
            r == (self.content_len == 0),
    {
        self.content_len == 0
    }

    /// A fresh entry equal to this one.
    pub fn dup(&self) -> (r: UEntry)
        ensures
            r.key@ == self.key@,
            r.author@ == self.author@,
            r.timestamp == self.timestamp,
            r.content_hash@ == self.content_hash@,
            r.content_len == self.content_len,
            r.namespace@ == self.namespace@,
    {
        UEntry {
            key: copy_bytes(self.key.as_slice()),
            author: self.author.dup(),
            timestamp: self.timestamp,
            content_hash: self.content_hash.dup(),
            content_len: self.content_len,
            namespace: self.namespace.dup(),
        }
    }
}

} // verus!
