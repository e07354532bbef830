use std::sync::Arc;

use vstd::prelude::*;

use crate::multistore::{has_duplicate_prefix, MultistoreCache, MultistoreConfig};
use crate::share;
use crate::state::{stacked, Snapshot, StateDelta, StorageError};
use crate::substore::SubstoreConfig;
use crate::table::{index_of, lemma_changes_map_at, Layer};

verus! {

/// Some staged write lands in substore `s`.
pub open spec fn writes_to(
    cfg: MultistoreConfig,
    writes: Map<Seq<u8>, Option<Seq<u8>>>,
    s: SubstoreConfig,
) -> bool {
    exists|k: Seq<u8>| writes.contains_key(k) && (#[trigger] cfg.spec_route(k)).1.prefix@ == s.prefix@
}

/// The version that follows `v`; a substore's first version is 0.
pub open spec fn next_version(v: Option<u64>) -> u64 {
    match v {
        Some(x) => (x + 1) as u64,
        None => 0,
    }
}

/// `after` follows from `before` by committing `writes` as version `v`:
/// each substore written to moves to its next version, the main store
/// takes `v`, and every other entry stays.
pub open spec fn advances_versions(
    cfg: MultistoreConfig,
    before: Map<Seq<char>, u64>,
    after: Map<Seq<char>, u64>,
    writes: Map<Seq<u8>, Option<Seq<u8>>>,
    v: u64,
) -> bool {
    let subs = cfg.substores@;
    &&& forall|i: int|
        0 <= i < subs.len() ==> after.get((#[trigger] subs[i]).prefix@) == (if writes_to(
            cfg,
            writes,
            *subs[i],
        ) {
            Some(next_version(before.get(subs[i].prefix@)))
        } else {
            before.get(subs[i].prefix@)
        })
    &&& after.get(cfg.main_store.prefix@) == Some(v)
    &&& forall|p: Seq<char>|
        p != cfg.main_store.prefix@ && (forall|i: int|
            0 <= i < subs.len() ==> (#[trigger] subs[i]).prefix@ != p) ==> #[trigger] after.get(p)
            == before.get(p)
}

/// Tells whether some write of `layer` lands in substore `s`.
fn layer_writes_to(cfg: &MultistoreConfig, layer: &Layer, s: &SubstoreConfig) -> (r: bool)
    requires
        cfg.wf(),
        layer.wf(),
    ensures
        r == writes_to(*cfg, layer@, *s),
{
    let ghost e = layer.entries@;
    let mut i: usize = 0;
    while i < layer.entries.len()
        invariant
            cfg.wf(),
            layer.wf(),
            e == layer.entries@,
            i <= e.len(),
            forall|j: int| 0 <= j < i ==> (#[trigger] cfg.spec_route(e[j].key@)).1.prefix@ != s.prefix@,
        decreases e.len() - i,
    {
        let (_, target) = cfg.route_key_bytes(layer.entries[i].key.as_slice());
        if target.prefix == s.prefix {
            proof {
                lemma_changes_map_at(e, i as int);
            }
            return true;
        }
        i = i + 1;
    }
    proof {
        assert forall|k: Seq<u8>| layer@.contains_key(k) implies (#[trigger] cfg.spec_route(k)).1.prefix@ != s.prefix@ by {
            let j = index_of(e, k);
            assert(e[j].key@ == k);
        }
    }
    false
}

/// The committed history, one snapshot per version with the latest last,
/// and the latest version of each substore.
pub struct Storage {
    pub history: Vec<Snapshot>,
    pub cache: MultistoreCache,
}

impl View for Storage {
    type V = Seq<Map<Seq<u8>, Seq<u8>>>;

    /// The contents at each committed version, by version.
    open spec fn view(&self) -> Seq<Map<Seq<u8>, Seq<u8>>> {
        self.history@.map_values(|s: Snapshot| s@)
    }
}

impl Storage {
    pub open spec fn wf(&self) -> bool {
        &&& forall|i: int|
            0 <= i < self.history@.len() ==> (#[trigger] self.history@[i]).wf()
                && self.history@[i].version == Some(i as u64)
        &&& self.cache.wf()
        &&& self.cache.config.wf()
        &&& self.cache.config.distinct()
        &&& forall|p: Seq<char>|
            #[trigger] self.cache.versions().contains_key(p) ==> self.cache.versions()[p]
                < self.history@.len()
    }

    /// The latest committed version; `None` before the first commit.
    pub open spec fn latest(&self) -> Option<u64> {
        if self.history@.len() == 0 {
            None
        } else {
            Some((self.history@.len() - 1) as u64)
        }
    }

    /// What the latest snapshot reads.
    pub open spec fn current(&self) -> Map<Seq<u8>, Seq<u8>> {
        if self@.len() == 0 {
            Map::empty()
        } else {
            self@.last()
        }
    }

    /// An empty storage with only the main store, before its first commit.
    pub fn new() -> (r: Storage)
        ensures
            r.wf(),
            r@ == Seq::<Map<Seq<u8>, Seq<u8>>>::empty(),
            r.cache.config.substores@.len() == 0,
    {
        Storage::with_config(MultistoreConfig::default())
    }

    /// An empty storage with the given substores, before its first commit.
    pub fn with_config(config: MultistoreConfig) -> (r: Storage)
        requires
            config.wf(),
            config.distinct(),
        ensures
            r.wf(),
            r@ == Seq::<Map<Seq<u8>, Seq<u8>>>::empty(),
            r.cache.config == config,
            r.cache.versions() == Map::<Seq<char>, u64>::empty(),
    {
        let r = Storage { history: Vec::new(), cache: MultistoreCache::from_config(config) };
        assert(r@ =~= Seq::<Map<Seq<u8>, Seq<u8>>>::empty());
        r
    }

    /// The latest committed version of substore `s`.
    pub fn substore_version(&self, s: &Arc<SubstoreConfig>) -> (r: Option<u64>)
        requires
            self.wf(),
        ensures
            r == self.cache.versions().get(s.prefix@),
    {
        self.cache.get_version(s)
    }

    pub fn version(&self) -> (r: Option<u64>)
        ensures
            r == self.latest(),
    {
        if self.history.len() == 0 {
            None
        } else {
            Some((self.history.len() - 1) as u64)
        }
    }

    /// The latest snapshot.
    pub fn state(&self) -> (r: Snapshot)
        requires
            self.wf(),
        ensures
            r.wf(),
            r.version == self.latest(),
            r@ == self.current(),
            self.history@.len() > 0 ==> r == self.history@.last(),
    {
        if self.history.len() == 0 {
            Snapshot::pre_genesis()
        } else {
            self.history[self.history.len() - 1].clone()
        }
    }

    /// The snapshot of a committed version.
    pub fn state_at(&self, version: u64) -> (r: Option<Snapshot>)
        requires
            self.wf(),
        ensures
            r is Some <==> version < self@.len(),
            r matches Some(s) ==> s.wf() && s.version == Some(version) && s@ == self@[version as int],
    {
        if version < self.history.len() as u64 {
            Some(self.history[version as usize].clone())
        } else {
            None
        }
    }

    /// Commits a top-level delta that derives from the latest snapshot as
    /// the next version, and returns that version. Earlier versions stay
    /// as they were. Each substore that the delta writes to moves to its
    /// next version; the others keep theirs; the main store takes the new
    /// version. Committing a delta with no writes still makes a new
    /// version, with the same contents.
    pub fn commit(&mut self, delta: StateDelta) -> (r: Result<u64, StorageError>)
        requires
            old(self).wf(),
            delta.wf(),
        ensures
            final(self).wf(),
            delta.depth() != 1 ==> r == Err::<u64, StorageError>(
                StorageError::OutstandingTransaction,
            ) && *final(self) == *old(self),
            delta.depth() == 1 && delta.base.version != old(self).latest() ==> r == Err::<
                u64,
                StorageError,
            >(StorageError::StaleCommit) && *final(self) == *old(self),
            delta.depth() == 1 && delta.base.version == old(self).latest() ==> r == Ok::<
                u64,
                StorageError,
            >(old(self)@.len() as u64) && final(self)@ == old(self)@.push(delta@)
                && final(self).history@.drop_last() == old(self).history@
                && final(self).history@.last().nonverifiable_view() == delta.nonverifiable_view()
                && final(self).cache.config == old(self).cache.config && advances_versions(
                old(self).cache.config,
                old(self).cache.versions(),
                final(self).cache.versions(),
                delta.layers@[0]@,
                old(self)@.len() as u64,
            ),
    {
        if delta.layers.len() != 1 {
            return Err(StorageError::OutstandingTransaction);
        }
        let fresh = match (delta.base.version, self.version()) {
            (None, None) => true,
            (Some(a), Some(b)) => a == b,
            _ => false,
        };
        if !fresh {
            return Err(StorageError::StaleCommit);
        }
        let v = self.history.len() as u64;
        let ghost cfg = self.cache.config;
        let ghost subs = cfg.substores@;
        let ghost before = self.cache.versions();
        let ghost n = self.history@.len();
        let mut i: usize = 0;
        while i < self.cache.config.substores.len()
            invariant
                delta.wf(),
                delta.depth() == 1,
                self.history == old(self).history,
                n == self.history@.len(),
                v == n,
                self.cache.wf(),
                self.cache.config == cfg,
                cfg.wf(),
                cfg.distinct(),
                subs == cfg.substores@,
                before == old(self).cache.versions(),
                forall|p: Seq<char>| #[trigger] before.contains_key(p) ==> before[p] < n,
                i <= subs.len(),
                forall|p: Seq<char>|
                    #[trigger] self.cache.versions().contains_key(p) ==> self.cache.versions()[p] <= n,
                forall|j: int|
                    0 <= j < i ==> self.cache.versions().get((#[trigger] subs[j]).prefix@) == (if writes_to(cfg, delta.layers@[0]@, *subs[j]) {
                        Some(next_version(before.get(subs[j].prefix@)))
                    } else {
                        before.get(subs[j].prefix@)
                    }),
                forall|j: int|
                    i <= j < subs.len() ==> self.cache.versions().get((#[trigger] subs[j]).prefix@)
                        == before.get(subs[j].prefix@),
                forall|p: Seq<char>|
                    (forall|j: int| 0 <= j < subs.len() ==> (#[trigger] subs[j]).prefix@ != p)
                        ==> #[trigger] self.cache.versions().get(p) == before.get(p),
            decreases subs.len() - i,
        {
            let s = share(&self.cache.config.substores[i]);
            if layer_writes_to(&self.cache.config, &delta.layers[0], &s) {
                let next = match self.cache.get_version(&s) {
                    Some(x) => x + 1,
                    None => 0,
                };
                let ghost pre = self.cache.versions();
                self.cache.set_version(s, next);
                proof {
                    assert forall|j: int| 0 <= j < subs.len() && j != i implies (#[trigger] subs[j]).prefix@ != subs[i as int].prefix@ by {
                        assert(!has_duplicate_prefix(subs));
                    }
                    assert forall|p: Seq<char>|
                        (forall|j: int| 0 <= j < subs.len() ==> (#[trigger] subs[j]).prefix@ != p)
                        implies #[trigger] self.cache.versions().get(p) == before.get(p) by {
                        assert(subs[i as int].prefix@ != p);
                        assert(pre.get(p) == before.get(p));
                    }
                }
            }
            i = i + 1;
        }
        let main = share(&self.cache.config.main_store);
        let ghost after_loop = self.cache.versions();
        self.cache.set_version(main, v);
        proof {
            let mp = cfg.main_store.prefix@;
            assert forall|j: int| 0 <= j < subs.len() implies (#[trigger] subs[j]).prefix@ != mp by {
                assert(subs[j].prefix@.len() != 0);
            }
            assert forall|j: int| 0 <= j < subs.len() implies self.cache.versions().get((#[trigger] subs[j]).prefix@) == (if writes_to(cfg, delta.layers@[0]@, *subs[j]) {
                Some(next_version(before.get(subs[j].prefix@)))
            } else {
                before.get(subs[j].prefix@)
            }) by {
                assert(subs[j].prefix@ != mp);
                assert(self.cache.versions().get(subs[j].prefix@) == after_loop.get(subs[j].prefix@));
            }
            assert forall|p: Seq<char>|
                p != mp && (forall|j: int| 0 <= j < subs.len() ==> (#[trigger] subs[j]).prefix@ != p)
                implies #[trigger] self.cache.versions().get(p) == before.get(p) by {
                assert(after_loop.get(p) == before.get(p));
            }
        }
        let flat = delta.flatten();
        let side = delta.flatten_nonverifiable();
        let snap = Snapshot { version: Some(v), data: Arc::new(flat), nonverifiable: Arc::new(side) };
        assert(snap@ == delta@);
        self.history.push(snap);
        assert(self.history@.drop_last() =~= old(self).history@);
        assert(self@ =~= old(self)@.push(delta@));
        Ok(v)
    }
}

/// Reads are deterministic: two reads of one key at one committed version,
/// each through its own snapshot of that version, agree.
pub proof fn law_reads_determined(
    st: Storage,
    version: int,
    s1: Snapshot,
    s2: Snapshot,
    key: Seq<u8>,
    r1: Option<Seq<u8>>,
    r2: Option<Seq<u8>>,
)
    requires
        0 <= version < st@.len(),
        s1@ == st@[version],
        s2@ == st@[version],
        r1 == s1@.get(key),
        r2 == s2@.get(key),
    ensures
        r1 == r2,
{
}

/// After a commit, the latest snapshot reads exactly what the committed
/// delta read just before.
pub proof fn law_commit_then_state(before: Storage, after: Storage, delta: StateDelta)
    requires
        after@ == before@.push(delta@),
    ensures
        after.current() == delta@,
{
}

/// A commit leaves every earlier version as it was, so a snapshot taken
/// before it keeps reading the state it was taken from.
pub proof fn law_fork_independence(before: Storage, after: Storage, delta: StateDelta, version: int)
    requires
        after@ == before@.push(delta@),
        0 <= version < before@.len(),
    ensures
        after@[version] == before@[version],
        before@.len() > 0 ==> after@[before@.len() - 1] == before.current(),
{
}

/// Committing a delta that stages nothing makes a new version with the same
/// contents as the latest one.
pub proof fn law_empty_commit_keeps_contents(before: Storage, after: Storage, delta: StateDelta)
    requires
        delta.wf(),
        delta.depth() == 1,
        delta.layers@[0]@ == Map::<Seq<u8>, Option<Seq<u8>>>::empty(),
        delta.base@ == before.current(),
        after@ == before@.push(delta@),
    ensures
        after@.len() == before@.len() + 1,
        after.current() == before.current(),
{
    let l = delta.layers@;
    assert(l.drop_last() =~= Seq::<Layer>::empty());
    assert(stacked(delta.base.data@, l.drop_last()) == delta.base.data@);
    assert(l.last() == l[0]);
    assert(delta.staged() =~= delta.base.data@);
}

/// A delta that stages nothing writes to no substore, so committing it
/// leaves every substore's version where it was.
pub proof fn law_empty_delta_writes_no_substore(cfg: MultistoreConfig, s: SubstoreConfig)
    ensures
        !writes_to(cfg, Map::<Seq<u8>, Option<Seq<u8>>>::empty(), s),
{
}

} // verus!
