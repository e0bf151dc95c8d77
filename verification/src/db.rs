//! The storage engine: a state-commitment store and a versioned state
//! storage behind a two-phase stage/commit protocol.
//!
//! A block executor stages a batch with `flush_but_not_commit`, handing in
//! the outcome of the external Merkle commitment interface (the would-be
//! root hash and the commitment-store delta), then makes it durable with
//! `commit`. Only one changeset may be staged at a time, and committed
//! state changes in `commit` alone. Reads go through version-pinned views.

use vstd::prelude::*;
use crate::assoc::{assoc_get, lemma_assoc_get_take_step, lemma_unique_take, unique_keys};
use crate::batch::{Batch, Op, Order};
use crate::bytes::clone_bytes;
use crate::bytes::clone_opt_bytes;
use crate::store::FlatStore;
use crate::versioned_map::{hist_or_empty, opt_key_view, scan_spec, versions_lt, visible,
    MapView, VersionedMap};

verus! {

/// Errors of the stage/commit protocol; both indicate engine misuse by the
/// caller, not data corruption.
#[derive(Debug, Clone, Copy, PartialEq, Eq, Structural)]
pub enum DbError {
    /// `flush_but_not_commit` was called while a changeset was staged.
    ChangeSetAlreadySet,
    /// `commit` was called with no changeset staged.
    ChangeSetNotSet,
}

pub type DbResult<T> = Result<T, DbError>;

/// What the external Merkle commitment interface computed for one batch:
/// the root hash the commitment store would have, and the commitment-store
/// operations (tree-node writes and removals) that realize it.
pub struct CommitmentUpdate {
    pub root_hash: Option<Vec<u8>>,
    pub delta: Batch,
}

impl CommitmentUpdate {
    pub open spec fn wf(&self) -> bool {
        self.delta.wf()
    }
}

/// The staged-but-uncommitted unit: the target version, the commitment
/// delta and root, and the original batch destined for state storage.
struct ChangeSet {
    version: u64,
    root: Option<Vec<u8>>,
    state_commitment: Batch,
    state_storage: Batch,
}

/// A staged changeset at the specification level.
pub ghost struct ChangeSetView {
    pub version: u64,
    pub root: Option<Seq<u8>>,
    pub delta: Seq<(Seq<u8>, Option<Seq<u8>>)>,
    pub batch: Seq<(Seq<u8>, Option<Seq<u8>>)>,
}

/// How committing a delta changes the flat commitment store: an insert
/// upserts, a delete removes, every other key keeps its value.
pub open spec fn commitment_updated(
    pre: Seq<(Seq<u8>, Seq<u8>)>,
    post: Seq<(Seq<u8>, Seq<u8>)>,
    delta: Seq<(Seq<u8>, Option<Seq<u8>>)>,
) -> bool {
    forall|k: Seq<u8>|
        #[trigger] assoc_get(post, k) == match assoc_get(delta, k) {
            Some(Some(v)) => Some(v),
            Some(None) => None::<Seq<u8>>,
            None => assoc_get(pre, k),
        }
}

/// How committing a batch changes state storage: every batch key's history
/// grows by one record at the committed version, every other key keeps its
/// history.
pub open spec fn storage_updated(
    pre: MapView,
    post: MapView,
    batch: Seq<(Seq<u8>, Option<Seq<u8>>)>,
    version: u64,
) -> bool {
    forall|k: Seq<u8>|
        #[trigger] assoc_get(post, k) == match assoc_get(batch, k) {
            Some(v) => Some(hist_or_empty(pre, k).push((version, v))),
            None => assoc_get(pre, k),
        }
}

/// The version a view resolves to: an explicit version as given, an absent
/// one as the latest committed version, or 0 before any commit.
pub open spec fn resolved_version(latest: Option<u64>, version: Option<u64>) -> u64 {
    match version {
        Some(v) => v,
        None => match latest {
            Some(l) => l,
            None => 0,
        },
    }
}

/// The root hash recorded for a version, absent for versions never
/// committed.
pub open spec fn root_at(roots: Seq<Option<Seq<u8>>>, v: u64) -> Option<Seq<u8>> {
    if (v as int) < roots.len() {
        roots[v as int]
    } else {
        None
    }
}

/// The records a scan yields in the asked-for order: the store's ascending
/// sequence, or its exact reverse.
pub open spec fn scan_in_order(
    m: MapView,
    min: Option<Seq<u8>>,
    max: Option<Seq<u8>>,
    v: u64,
    order: Order,
) -> Seq<(Seq<u8>, Seq<u8>)> {
    match order {
        Order::Ascending => scan_spec(m, min, max, v),
        Order::Descending => scan_spec(m, min, max, v).reverse(),
    }
}

/// The in-memory storage engine.
pub struct MemDb {
    /// Version of the engine: `None` until the first commit, then 0,
    /// incremented by 1 per commit.
    latest_version: Option<u64>,
    /// Root hash recorded at each committed version, indexed by version.
    roots: Vec<Option<Vec<u8>>>,
    /// The flat key-value store backing the Merkle commitment.
    state_commitment: FlatStore,
    /// The versioned key-value store backing historical queries.
    state_storage: VersionedMap,
    /// The staged, uncommitted changeset, if any.
    changeset: Option<ChangeSet>,
}

impl MemDb {
    /// The latest committed version.
    pub closed spec fn latest_spec(&self) -> Option<u64> {
        self.latest_version
    }

    /// The recorded root hashes, one per committed version.
    pub closed spec fn roots_spec(&self) -> Seq<Option<Seq<u8>>> {
        self.roots.deep_view()
    }

    /// The flat commitment store's contents.
    pub closed spec fn commitment_spec(&self) -> Seq<(Seq<u8>, Seq<u8>)> {
        self.state_commitment@
    }

    /// The versioned state storage's contents.
    pub closed spec fn storage_spec(&self) -> MapView {
        self.state_storage@
    }

    /// The staged changeset, if any.
    pub closed spec fn changeset_spec(&self) -> Option<ChangeSetView> {
        match self.changeset {
            Some(cs) => Some(
                ChangeSetView {
                    version: cs.version,
                    root: cs.root.deep_view(),
                    delta: cs.state_commitment@,
                    batch: cs.state_storage@,
                },
            ),
            None => None,
        }
    }

    /// The version the next commit will carry.
    pub open spec fn next_version_spec(&self) -> u64 {
        self.roots_spec().len() as u64
    }

    /// The engine's invariant: the component stores are well formed, the
    /// latest version mirrors how many commits happened, every stored
    /// history version is a committed version, and a staged changeset
    /// targets exactly the next version.
    pub closed spec fn wf(&self) -> bool {
        &&& self.state_commitment.wf()
        &&& self.state_storage.wf()
        &&& self.roots_spec().len() <= u64::MAX
        &&& self.latest_spec() == (if self.roots_spec().len() == 0 {
            None::<u64>
        } else {
            Some((self.roots_spec().len() - 1) as u64)
        })
        &&& versions_lt(self.storage_spec(), self.roots_spec().len() as int)
        &&& match self.changeset_spec() {
            Some(cs) => {
                &&& cs.version == self.roots_spec().len()
                &&& self.roots_spec().len() < u64::MAX
                &&& unique_keys(cs.delta)
                &&& unique_keys(cs.batch)
            },
            None => true,
        }
    }

    /// A fresh, empty engine: no version, no data, nothing staged.
    pub fn new() -> (r: Self)
        ensures
            r.wf(),
            r.latest_spec() is None,
            r.roots_spec() == Seq::<Option<Seq<u8>>>::empty(),
            r.commitment_spec() == Seq::<(Seq<u8>, Seq<u8>)>::empty(),
            r.storage_spec() == Seq::<(Seq<u8>, crate::versioned_map::Hist)>::empty(),
            r.changeset_spec() is None,
    {
        let r = Self {
            latest_version: None,
            roots: Vec::new(),
            state_commitment: FlatStore::new(),
            state_storage: VersionedMap::new(),
            changeset: None,
        };
        proof {
            assert(r.roots_spec() =~= Seq::<Option<Seq<u8>>>::empty());
        }
        r
    }

    /// The latest committed version; `None` before the first commit.
    pub fn latest_version(&self) -> (r: Option<u64>)
        ensures
            r == self.latest_spec(),
    {
        self.latest_version
    }

    /// A read-only view over the flat committed commitment store; never
    /// historical, always current.
    pub fn state_commitment(&self) -> (r: StateCommitment<'_>)
        ensures
            r.db() == *self,
    {
        StateCommitment { db: self }
    }

    /// A read-only view pinned to a version: the given one, or the latest
    /// committed version (0 before the first commit) when absent.
    pub fn state_storage(&self, version: Option<u64>) -> (r: StateStorage<'_>)
        ensures
            r.db() == *self,
            r.version_spec() == resolved_version(self.latest_spec(), version),
    {
        let resolved = match version {
            Some(v) => v,
            None => match self.latest_version {
                Some(l) => l,
                None => 0,
            },
        };
        StateStorage { db: self, version: resolved }
    }

    /// The root hash recorded for a version (the given one, or the latest
    /// committed one when absent); absent for versions never committed.
    pub fn root_hash(&self, version: Option<u64>) -> (r: DbResult<Option<Vec<u8>>>)
        ensures
            r matches Ok(h) && h.deep_view() == root_at(
                self.roots_spec(),
                resolved_version(self.latest_spec(), version),
            ),
    {
        let resolved = match version {
            Some(v) => v,
            None => match self.latest_version {
                Some(l) => l,
                None => 0,
            },
        };
        if resolved < self.roots.len() as u64 {
            let i = resolved as usize;
            Ok(clone_opt_bytes(&self.roots[i]))
        } else {
            Ok(None)
        }
    }

    /// Stage a batch without committing: record the batch, the delta and
    /// the root hash the external Merkle interface computed for it, under
    /// the next version. Fails if a changeset is already staged; never
    /// touches committed state.
    pub fn flush_but_not_commit(&mut self, batch: Batch, update: CommitmentUpdate) -> (r: DbResult<
        (u64, Option<Vec<u8>>),
    >)
        requires
            old(self).wf(),
            batch.wf(),
            update.wf(),
            old(self).roots_spec().len() < u64::MAX,
        ensures
            final(self).wf(),
            final(self).latest_spec() == old(self).latest_spec(),
            final(self).roots_spec() == old(self).roots_spec(),
            final(self).commitment_spec() == old(self).commitment_spec(),
            final(self).storage_spec() == old(self).storage_spec(),
            match old(self).changeset_spec() {
                Some(_) => {
                    &&& r == Err::<(u64, Option<Vec<u8>>), DbError>(DbError::ChangeSetAlreadySet)
                    &&& final(self).changeset_spec() == old(self).changeset_spec()
                },
                None => {
                    &&& r matches Ok(p) && p.0 == old(self).next_version_spec()
                        && p.1.deep_view() == update.root_hash.deep_view()
                    &&& final(self).changeset_spec() == Some(
                        (ChangeSetView {
                            version: old(self).next_version_spec(),
                            root: update.root_hash.deep_view(),
                            delta: update.delta@,
                            batch: batch@,
                        }),
                    )
                },
            },
    {
        if self.changeset.is_some() {
            return Err(DbError::ChangeSetAlreadySet);
        }
        let new_version = self.roots.len() as u64;
        let root_ret = clone_opt_bytes(&update.root_hash);
        let CommitmentUpdate { root_hash, delta } = update;
        self.changeset = Some(
            ChangeSet {
                version: new_version,
                root: root_hash,
                state_commitment: delta,
                state_storage: batch,
            },
        );
        Ok((new_version, root_ret))
    }

    /// Make the staged changeset durable: set the latest version, record
    /// the root hash, apply the delta to the commitment store, append the
    /// batch to state storage, and clear the staged slot. Fails if nothing
    /// is staged; this is the single point where committed state changes.
    pub fn commit(&mut self) -> (r: DbResult<()>)
        requires
            old(self).wf(),
        ensures
            final(self).wf(),
            match old(self).changeset_spec() {
                None => {
                    &&& r == Err::<(), DbError>(DbError::ChangeSetNotSet)
                    &&& final(self).latest_spec() == old(self).latest_spec()
                    &&& final(self).roots_spec() == old(self).roots_spec()
                    &&& final(self).commitment_spec() == old(self).commitment_spec()
                    &&& final(self).storage_spec() == old(self).storage_spec()
                    &&& final(self).changeset_spec() is None
                },
                Some(cs) => {
                    &&& r == Ok::<(), DbError>(())
                    &&& final(self).latest_spec() == Some(cs.version)
                    &&& final(self).roots_spec() == old(self).roots_spec().push(cs.root)
                    &&& commitment_updated(
                        old(self).commitment_spec(),
                        final(self).commitment_spec(),
                        cs.delta,
                    )
                    &&& storage_updated(
                        old(self).storage_spec(),
                        final(self).storage_spec(),
                        cs.batch,
                        cs.version,
                    )
                    &&& final(self).changeset_spec() is None
                },
            },
    {
        let cs = match self.changeset.take() {
            None => {
                return Err(DbError::ChangeSetNotSet);
            },
            Some(cs) => cs,
        };
        let ghost pre_commitment = self.state_commitment@;
        let ghost delta = cs.state_commitment@;
        self.latest_version = Some(cs.version);
        let ghost pre_roots = self.roots.deep_view();
        self.roots.push(cs.root);
        proof {
            assert(self.roots.deep_view() =~= pre_roots.push(cs.root.deep_view()));
            lemma_unique_take(delta, 0);
            assert(delta.take(0) =~= Seq::<(Seq<u8>, Option<Seq<u8>>)>::empty());
        }
        let n = cs.state_commitment.len();
        let mut i: usize = 0;
        while i < n
            invariant
                self.latest_version == Some(cs.version),
                self.roots.deep_view() == pre_roots.push(cs.root.deep_view()),
                self.changeset is None,
                self.state_storage == old(self).state_storage,
                cs.state_commitment.wf(),
                delta == cs.state_commitment@,
                unique_keys(delta),
                n == delta.len(),
                i <= n,
                self.state_commitment.wf(),
                forall|k: Seq<u8>|
                    #[trigger] assoc_get(self.state_commitment@, k) == match assoc_get(
                        delta.take(i as int),
                        k,
                    ) {
                        Some(Some(v)) => Some(v),
                        Some(None) => None::<Seq<u8>>,
                        None => assoc_get(pre_commitment, k),
                    },
            decreases n - i,
        {
            let e = cs.state_commitment.entry_at(i);
            let ghost mid = self.state_commitment@;
            match &e.1 {
                Op::Insert(v) => {
                    let ck = clone_bytes(&e.0);
                    let cv = clone_bytes(v);
                    self.state_commitment.upsert(ck, cv);
                },
                Op::Delete => {
                    self.state_commitment.remove(&e.0);
                },
            }
            proof {
                assert forall|k: Seq<u8>|
                    #[trigger] assoc_get(self.state_commitment@, k) == match assoc_get(
                        delta.take(i + 1),
                        k,
                    ) {
                        Some(Some(v)) => Some(v),
                        Some(None) => None::<Seq<u8>>,
                        None => assoc_get(pre_commitment, k),
                    } by {
                    lemma_assoc_get_take_step(delta, i as int, k);
                    if k == delta[i as int].0 {
                        assert(delta[i as int].1 == e.1.as_option());
                    } else {
                        assert(assoc_get(mid, k) == match assoc_get(delta.take(i as int), k) {
                            Some(Some(v)) => Some(v),
                            Some(None) => None::<Seq<u8>>,
                            None => assoc_get(pre_commitment, k),
                        });
                    }
                }
            }
            i += 1;
        }
        proof {
            assert(delta.take(n as int) =~= delta);
        }
        self.state_storage.write_batch(&cs.state_storage, cs.version);
        Ok(())
    }
}

/// Law: the version discipline of the commit protocol. A fresh engine
/// stages version 0; an engine whose latest committed version is `v`
/// stages `v + 1`. Together with `commit`'s contract, which makes the
/// staged version the latest one, the first commit yields version 0 and
/// every further commit increments the latest version by exactly 1.
pub proof fn lemma_version_discipline(m: &MemDb)
    requires
        m.wf(),
    ensures
        m.latest_spec() is None ==> m.next_version_spec() == 0,
        m.latest_spec() matches Some(v) ==> m.next_version_spec() == v + 1,
{
}

impl Default for MemDb {
    /// Same as `new`: a fresh, empty engine.
    fn default() -> (r: Self)
        ensures
            r.wf(),
            r.latest_spec() is None,
            r.changeset_spec() is None,
    {
        Self::new()
    }
}

/// A read-only view over the committed commitment store. It is a borrow of
/// the engine: reads see exactly the committed flat store, and no write
/// interface exists on it at all.
pub struct StateCommitment<'a> {
    db: &'a MemDb,
}

impl<'a> StateCommitment<'a> {
    /// The engine this view reads.
    pub closed spec fn db(&self) -> MemDb {
        *self.db
    }

    /// Read a key from the committed commitment store.
    pub fn read(&self, key: &Vec<u8>) -> (r: Option<Vec<u8>>)
        requires
            self.db().wf(),
        ensures
            r.deep_view() == assoc_get(self.db().commitment_spec(), key@),
    {
        self.db.state_commitment.get(key)
    }
}

/// A read-only view over state storage, pinned to one version at creation
/// time. No write interface exists on it at all.
pub struct StateStorage<'a> {
    db: &'a MemDb,
    version: u64,
}

impl<'a> StateStorage<'a> {
    /// The engine this view reads.
    pub closed spec fn db(&self) -> MemDb {
        *self.db
    }

    /// The version this view is pinned to.
    pub closed spec fn version_spec(&self) -> u64 {
        self.version
    }

    /// Read the value visible for a key at this view's version.
    pub fn read(&self, key: &Vec<u8>) -> (r: Option<Vec<u8>>)
        requires
            self.db().wf(),
        ensures
            r.deep_view() == visible(self.db().storage_spec(), key@, self.version_spec()),
    {
        self.db.state_storage.get(key, self.version)
    }

    /// Scan `[min, max)` at this view's version: all visible records, in
    /// ascending key order, or in exactly the reverse order when asked for
    /// `Descending`.
    pub fn scan(&self, min: Option<&Vec<u8>>, max: Option<&Vec<u8>>, order: Order) -> (r: Vec<
        (Vec<u8>, Vec<u8>),
    >)
        requires
            self.db().wf(),
        ensures
            r.deep_view() == scan_in_order(
                self.db().storage_spec(),
                opt_key_view(min),
                opt_key_view(max),
                self.version_spec(),
                order,
            ),
    {
        let ascending = self.db.state_storage.range(min, max, self.version);
        match order {
            Order::Ascending => ascending,
            Order::Descending => reverse_records(ascending),
        }
    }
}

/// The same records in the opposite order.
fn reverse_records(v: Vec<(Vec<u8>, Vec<u8>)>) -> (r: Vec<(Vec<u8>, Vec<u8>)>)
    ensures
        r.deep_view() == v.deep_view().reverse(),
{
    let ghost full = v.deep_view();
    let mut src = v;
    let mut r: Vec<(Vec<u8>, Vec<u8>)> = Vec::new();
    proof {
        assert(full.take(src.len() as int) =~= full);
        assert(full.skip(src.len() as int) =~= Seq::<(Seq<u8>, Seq<u8>)>::empty());
        assert(full.skip(src.len() as int).reverse() =~= Seq::<(Seq<u8>, Seq<u8>)>::empty());
        assert(r.deep_view() =~= Seq::<(Seq<u8>, Seq<u8>)>::empty());
    }
    while src.len() > 0
        invariant
            src.len() <= full.len(),
            src.deep_view() == full.take(src.len() as int),
            src.deep_view().len() == src.len(),
            r.deep_view() == full.skip(src.len() as int).reverse(),
        decreases src.len(),
    {
        let ghost pre_src = src.deep_view();
        let ghost pre_r = r.deep_view();
        let ghost oldn = src.len() as int;
        let x = src.pop().unwrap();
        let ghost gx = x.deep_view();
        r.push(x);
        proof {
            let k = oldn - 1;
            assert(src.len() == k);
            assert(src.deep_view() =~~= pre_src.drop_last());
            assert(pre_src == full.take(oldn));
            assert(forall|i: int| 0 <= i < oldn ==> #[trigger] full.take(oldn)[i] == full[i]);
            assert(pre_src.drop_last() =~= full.take(k));
            assert(full.take(oldn)[k] == full[k]);
            assert(gx == pre_src[k]);
            assert(gx == full[k]);
            assert(r.deep_view() =~~= pre_r.push(gx));
            assert(full.skip(k).len() == full.len() - k);
            assert(full.skip(k + 1).len() == full.len() - k - 1);
            assert(full.skip(k).reverse() =~~= full.skip(k + 1).reverse().push(full[k]));
            assert(r.deep_view() =~~= full.skip(k).reverse());
        }
    }
    proof {
        assert(full.take(0) =~= Seq::<(Seq<u8>, Seq<u8>)>::empty());
        assert(full.skip(0) =~= full);
    }
    r
}

} // verus!
