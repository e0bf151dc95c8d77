//! Batches: the atomic unit of change applied to the store.
//!
//! A batch maps keys to operations — insert a value, or delete the key —
//! with keys unique within one batch. At the specification level a batch is
//! an association sequence of (key, optional value), where `None` stands
//! for a deletion.

use vstd::prelude::*;
use crate::assoc::{assoc_get, unique_keys, lemma_assoc_get_at, lemma_assoc_get_none};
use crate::bytes::clone_bytes;
use crate::bytes::eq_bytes;

verus! {

/// A single operation on one key.
#[derive(Debug)]
pub enum Op {
    Insert(Vec<u8>),
    Delete,
}

impl Op {
    /// The operation as an optional value: `None` encodes a deletion.
    pub open spec fn as_option(&self) -> Option<Seq<u8>> {
        match self {
            Op::Insert(v) => Some(v@),
            Op::Delete => None,
        }
    }

    /// A fresh copy of the operation.
    pub fn clone_op(&self) -> (r: Op)
        ensures
            r.as_option() == self.as_option(),
    {
        match self {
            Op::Insert(v) => Op::Insert(clone_bytes(v)),
            Op::Delete => Op::Delete,
        }
    }
}

/// Iteration order of a scan.
#[derive(Debug, Clone, Copy, PartialEq, Eq, Structural)]
pub enum Order {
    Ascending,
    Descending,
}

/// An ordered collection of key-to-operation entries, keys unique.
pub struct Batch {
    entries: Vec<(Vec<u8>, Op)>,
}

impl View for Batch {
    type V = Seq<(Seq<u8>, Option<Seq<u8>>)>;

    closed spec fn view(&self) -> Self::V {
        self.entries@.map_values(|e: (Vec<u8>, Op)| (e.0@, e.1.as_option()))
    }
}

impl Batch {
    /// Keys are pairwise distinct.
    pub open spec fn wf(&self) -> bool {
        unique_keys(self@)
    }

    /// An empty batch.
    pub fn new() -> (r: Self)
        ensures
            r.wf(),
            r@ == Seq::<(Seq<u8>, Option<Seq<u8>>)>::empty(),
    {
        let r = Self { entries: Vec::new() };
        proof {
            assert(r@ =~= Seq::<(Seq<u8>, Option<Seq<u8>>)>::empty());
        }
        r
    }

    /// Number of entries in the batch.
    pub fn len(&self) -> (r: usize)
        ensures
            r == self@.len(),
    {
        self.entries.len()
    }

    /// Whether the batch holds an entry for the given key.
    pub fn contains_key(&self, key: &Vec<u8>) -> (r: bool)
        requires
            self.wf(),
        ensures
            r == (assoc_get(self@, key@) is Some),
    {
        let mut i: usize = 0;
        while i < self.entries.len()
            invariant
                self.wf(),
                i <= self.entries.len(),
                self@.len() == self.entries@.len(),
                forall|j: int| 0 <= j < i ==> self@[j].0 != key@,
            decreases self.entries.len() - i,
        {
            if eq_bytes(&self.entries[i].0, key) {
                proof {
                    lemma_assoc_get_at(self@, i as int);
                }
                return true;
            }
            i += 1;
        }
        proof {
            lemma_assoc_get_none(self@, key@);
        }
        false
    }

    /// Add an entry for a key the batch does not yet hold.
    pub fn insert(&mut self, key: Vec<u8>, op: Op)
        requires
            old(self).wf(),
            assoc_get(old(self)@, key@) is None,
        ensures
            final(self).wf(),
            final(self)@ == old(self)@.push((key@, op.as_option())),
    {
        proof {
            lemma_assoc_get_none(old(self)@, key@);
        }
        let ghost pre = self@;
        let ghost kv = (key@, op.as_option());
        self.entries.push((key, op));
        proof {
            assert(self@ =~= pre.push(kv));
        }
    }

    /// Borrow the entry at the given position.
    pub fn entry_at(&self, i: usize) -> (r: &(Vec<u8>, Op))
        requires
            i < self@.len(),
        ensures
            r.0@ == self@[i as int].0,
            r.1.as_option() == self@[i as int].1,
    {
        &self.entries[i]
    }
}

} // verus!
