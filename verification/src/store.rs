//! The flat state-commitment store: a plain key-to-value map over byte
//! sequences, reflecting only committed data. It backs the commitment root
//! hash and is never scanned in key order, so it keeps no ordering.

use vstd::prelude::*;
use vstd::pervasive::VecAdditionalExecFns;
use crate::assoc::{assoc_get, unique_keys, lemma_assoc_get_at, lemma_assoc_get_insert,
    lemma_assoc_get_none, lemma_assoc_get_remove, lemma_assoc_get_update};
use crate::bytes::{clone_bytes, eq_bytes};

verus! {

/// A flat key-to-value store with pairwise-distinct keys.
pub struct FlatStore {
    entries: Vec<(Vec<u8>, Vec<u8>)>,
}

impl View for FlatStore {
    type V = Seq<(Seq<u8>, Seq<u8>)>;

    closed spec fn view(&self) -> Self::V {
        self.entries@.map_values(|e: (Vec<u8>, Vec<u8>)| (e.0@, e.1@))
    }
}

impl FlatStore {
    /// Keys are pairwise distinct.
    pub open spec fn wf(&self) -> bool {
        unique_keys(self@)
    }

    /// An empty store.
    pub fn new() -> (r: Self)
        ensures
            r.wf(),
            r@ == Seq::<(Seq<u8>, Seq<u8>)>::empty(),
    {
        let r = Self { entries: Vec::new() };
        proof {
            assert(r@ =~= Seq::<(Seq<u8>, Seq<u8>)>::empty());
        }
        r
    }

    /// Look a key up; a fresh copy of the stored value, if any.
    pub fn get(&self, key: &Vec<u8>) -> (r: Option<Vec<u8>>)
        requires
            self.wf(),
        ensures
            r.deep_view() == assoc_get(self@, key@),
    {
        let mut i: usize = 0;
        while i < self.entries.len()
            invariant
                self.wf(),
                i <= self.entries.len(),
                self@.len() == self.entries@.len(),
                forall|j: int| 0 <= j < i ==> self@[j].0 != key@,
            decreases self.entries.len() - i,
        {
            if eq_bytes(&self.entries[i].0, key) {
                proof {
                    lemma_assoc_get_at(self@, i as int);
                }
                return Some(clone_bytes(&self.entries[i].1));
            }
            i += 1;
        }
        proof {
            lemma_assoc_get_none(self@, key@);
        }
        None
    }

    /// Insert a value under a key, replacing any value already there.
    pub fn upsert(&mut self, key: Vec<u8>, value: Vec<u8>)
        requires
            old(self).wf(),
        ensures
            final(self).wf(),
            forall|k2: Seq<u8>|
                #[trigger] assoc_get(final(self)@, k2) == if k2 == key@ {
                    Some(value@)
                } else {
                    assoc_get(old(self)@, k2)
                },
    {
        let ghost pre = self@;
        let mut i: usize = 0;
        while i < self.entries.len()
            invariant
                pre == old(self)@,
                self.wf(),
                self@ == pre,
                i <= self.entries.len(),
                self@.len() == self.entries@.len(),
                forall|j: int| 0 <= j < i ==> self@[j].0 != key@,
            decreases self.entries.len() - i,
        {
            if eq_bytes(&self.entries[i].0, &key) {
                proof {
                    assert(pre[i as int].0 == key@);
                }
                self.entries.set(i, (key, value));
                proof {
                    assert(self@ =~= pre.update(i as int, (pre[i as int].0, value@)));
                    assert forall|k2: Seq<u8>|
                        #[trigger] assoc_get(self@, k2) == if k2 == key@ {
                            Some(value@)
                        } else {
                            assoc_get(pre, k2)
                        } by {
                        lemma_assoc_get_update(pre, i as int, value@, k2);
                    }
                }
                return ;
            }
            i += 1;
        }
        proof {
            lemma_assoc_get_none(pre, key@);
        }
        let ghost kv = (key@, value@);
        self.entries.push((key, value));
        proof {
            assert(self@ =~= pre.insert(pre.len() as int, kv));
            assert(pre.insert(pre.len() as int, kv) =~= pre.push(kv));
            assert forall|k2: Seq<u8>|
                #[trigger] assoc_get(self@, k2) == if k2 == kv.0 {
                    Some(kv.1)
                } else {
                    assoc_get(pre, k2)
                } by {
                lemma_assoc_get_insert(pre, pre.len() as int, kv.0, kv.1, k2);
            }
        }
    }

    /// Remove a key and its value, if present.
    pub fn remove(&mut self, key: &Vec<u8>)
        requires
            old(self).wf(),
        ensures
            final(self).wf(),
            forall|k2: Seq<u8>|
                #[trigger] assoc_get(final(self)@, k2) == if k2 == key@ {
                    None::<Seq<u8>>
                } else {
                    assoc_get(old(self)@, k2)
                },
    {
        let ghost pre = self@;
        let mut i: usize = 0;
        while i < self.entries.len()
            invariant
                pre == old(self)@,
                self.wf(),
                self@ == pre,
                i <= self.entries.len(),
                self@.len() == self.entries@.len(),
                forall|j: int| 0 <= j < i ==> self@[j].0 != key@,
            decreases self.entries.len() - i,
        {
            if eq_bytes(&self.entries[i].0, key) {
                proof {
                    assert(pre[i as int].0 == key@);
                }
                self.entries.remove(i);
                proof {
                    assert(self@ =~= pre.remove(i as int));
                    assert forall|k2: Seq<u8>|
                        #[trigger] assoc_get(self@, k2) == if k2 == key@ {
                            None::<Seq<u8>>
                        } else {
                            assoc_get(pre, k2)
                        } by {
                        lemma_assoc_get_remove(pre, i as int, k2);
                    }
                }
                return ;
            }
            i += 1;
        }
        proof {
            lemma_assoc_get_none(pre, key@);
        }
    }
}

} // verus!
