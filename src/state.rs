use std::sync::Arc;

use vstd::prelude::*;

use crate::bytes::lex_lt;
use crate::share;
use crate::table::{lemma_live_get, lists, live, opt_view, Layer};

verus! {

/// Why a write or a commit was refused.
#[derive(Debug, PartialEq, Eq, Structural)]
pub enum StorageError {
    /// Keys are non-empty byte strings.
    EmptyKey,
    /// The delta does not derive from the latest committed state.
    StaleCommit,
    /// The delta is a transaction that was neither applied nor aborted.
    OutstandingTransaction,
}

/// An immutable read view pinned to one committed version.
pub struct Snapshot {
    /// `None` before the first commit.
    pub version: Option<u64>,
    /// The verifiable contents.
    pub data: Arc<Layer>,
    /// The contents of the side store that no Merkle tree covers.
    pub nonverifiable: Arc<Layer>,
}

impl View for Snapshot {
    type V = Map<Seq<u8>, Seq<u8>>;

    open spec fn view(&self) -> Map<Seq<u8>, Seq<u8>> {
        live(self.data@)
    }
}

impl Clone for Snapshot {
    fn clone(&self) -> (r: Self)
        ensures
            r == *self,
    {
        Snapshot {
            version: self.version,
            data: share(&self.data),
            nonverifiable: share(&self.nonverifiable),
        }
    }
}

/// The layers stacked over `base` in order; an upper layer's write wins.
pub open spec fn stacked(
    base: Map<Seq<u8>, Option<Seq<u8>>>,
    layers: Seq<Layer>,
) -> Map<Seq<u8>, Option<Seq<u8>>>
    decreases layers.len(),
{
    if layers.len() == 0 {
        base
    } else {
        stacked(base, layers.drop_last()).union_prefer_right(layers.last()@)
    }
}

pub open spec fn all_wf(layers: Seq<Layer>) -> bool {
    forall|i: int| 0 <= i < layers.len() ==> (#[trigger] layers[i]).wf()
}

/// Reads `key` through `layers`, innermost first, and then from `base`.
fn read_through(base: &Layer, layers: &Vec<Layer>, key: &[u8]) -> (r: Option<Vec<u8>>)
    requires
        base.wf(),
        all_wf(layers@),
    ensures
        opt_view(r) == live(stacked(base@, layers@)).get(key@),
{
    let ghost l = layers@;
    let mut i: usize = layers.len();
    assert(l.take(i as int) =~= l);
    while i > 0
        invariant
            all_wf(l),
            l == layers@,
            i <= l.len(),
            stacked(base@, l).get(key@) == stacked(base@, l.take(i as int)).get(key@),
        decreases i,
    {
        proof {
            assert(l.take(i as int).drop_last() =~= l.take(i - 1));
            assert(l.take(i as int).last() == l[i - 1]);
        }
        match layers[i - 1].lookup(key) {
            Some(w) => {
                proof {
                    lemma_live_get(stacked(base@, l), key@);
                }
                return w;
            },
            None => {
                i = i - 1;
            },
        }
    }
    proof {
        assert(l.take(0) =~= Seq::<Layer>::empty());
        lemma_live_get(stacked(base@, l), key@);
        lemma_live_get(base@, key@);
    }
    match base.lookup(key) {
        Some(Some(v)) => Some(v),
        _ => None,
    }
}

/// Stages a write in the innermost layer.
fn stage_in(layers: &mut Vec<Layer>, key: Vec<u8>, value: Option<Vec<u8>>)
    requires
        old(layers)@.len() >= 1,
        all_wf(old(layers)@),
    ensures
        all_wf(final(layers)@),
        final(layers)@.len() == old(layers)@.len(),
        final(layers)@.drop_last() == old(layers)@.drop_last(),
        final(layers)@.last()@ == old(layers)@.last()@.insert(key@, opt_view(value)),
        forall|b: Map<Seq<u8>, Option<Seq<u8>>>|
            #[trigger] stacked(b, final(layers)@) == stacked(b, old(layers)@).insert(
                key@,
                opt_view(value),
            ),
{
    let ghost k = key@;
    let ghost v = opt_view(value);
    let mut top = layers.pop().unwrap();
    top.insert(key, value);
    layers.push(top);
    proof {
        let l = layers@;
        let o = old(layers)@;
        assert(l.drop_last() =~= o.drop_last());
        assert(forall|i: int| 0 <= i < l.len() - 1 ==> l[i] == o[i]);
        assert forall|b: Map<Seq<u8>, Option<Seq<u8>>>|
            #[trigger] stacked(b, l) == stacked(b, o).insert(k, v) by {
            assert(stacked(b, l) =~= stacked(b, o).insert(k, v));
        }
    }
}

/// Opens an empty innermost layer.
fn push_layer(layers: &mut Vec<Layer>)
    requires
        all_wf(old(layers)@),
    ensures
        all_wf(final(layers)@),
        final(layers)@.drop_last() == old(layers)@,
        final(layers)@.len() == old(layers)@.len() + 1,
        final(layers)@.last()@ == Map::<Seq<u8>, Option<Seq<u8>>>::empty(),
        forall|b: Map<Seq<u8>, Option<Seq<u8>>>|
            #[trigger] stacked(b, final(layers)@) == stacked(b, old(layers)@),
{
    layers.push(Layer::new());
    proof {
        assert(layers@.drop_last() =~= old(layers)@);
        assert forall|b: Map<Seq<u8>, Option<Seq<u8>>>|
            #[trigger] stacked(b, layers@) == stacked(b, old(layers)@) by {
            assert(stacked(b, layers@) =~= stacked(b, old(layers)@));
        }
    }
}

/// Folds the innermost layer into the one below it.
fn merge_top(layers: &mut Vec<Layer>)
    requires
        old(layers)@.len() >= 2,
        all_wf(old(layers)@),
    ensures
        all_wf(final(layers)@),
        final(layers)@.len() == old(layers)@.len() - 1,
        final(layers)@.drop_last() == old(layers)@.take(old(layers)@.len() - 2),
        final(layers)@.last()@ == old(layers)@[old(layers)@.len() - 2]@.union_prefer_right(
            old(layers)@.last()@,
        ),
        forall|b: Map<Seq<u8>, Option<Seq<u8>>>|
            #[trigger] stacked(b, final(layers)@) == stacked(b, old(layers)@),
{
    let ghost n = layers@.len();
    let child = layers.pop().unwrap();
    let mut parent = layers.pop().unwrap();
    assert(old(layers)@[n - 2] == parent);
    parent.merge_from(&child);
    layers.push(parent);
    proof {
        let l = layers@;
        let o = old(layers)@;
        assert(l.drop_last() =~= o.take(n - 2));
        assert(o.drop_last().drop_last() =~= o.take(n - 2));
        assert(o.drop_last().last() == o[n - 2]);
        assert(forall|i: int| 0 <= i < l.len() - 1 ==> l[i] == o[i]);
        assert forall|b: Map<Seq<u8>, Option<Seq<u8>>>|
            #[trigger] stacked(b, l) == stacked(b, o) by {
            assert(stacked(b, o.drop_last()) == stacked(b, o.drop_last().drop_last()).union_prefer_right(o[n - 2]@));
            assert(stacked(b, l) =~= stacked(b, o));
        }
    }
}

/// `base` with every layer's writes applied in order.
fn flatten_over(base: &Layer, layers: &Vec<Layer>) -> (r: Layer)
    requires
        base.wf(),
        all_wf(layers@),
    ensures
        r.wf(),
        r@ == stacked(base@, layers@),
{
    let ghost l = layers@;
    let mut acc = base.copy();
    let mut i: usize = 0;
    assert(l.take(0) =~= Seq::<Layer>::empty());
    while i < layers.len()
        invariant
            all_wf(l),
            l == layers@,
            i <= l.len(),
            acc.wf(),
            acc@ == stacked(base@, l.take(i as int)),
        decreases l.len() - i,
    {
        acc.merge_from(&layers[i]);
        proof {
            assert(l.take(i + 1).drop_last() =~= l.take(i as int));
            assert(l.take(i + 1).last() == l[i as int]);
        }
        i = i + 1;
    }
    assert(l.take(l.len() as int) =~= l);
    acc
}

impl Snapshot {
    pub open spec fn wf(&self) -> bool {
        self.data.wf() && self.nonverifiable.wf()
    }

    /// What the side store reads.
    pub open spec fn nonverifiable_view(&self) -> Map<Seq<u8>, Seq<u8>> {
        live(self.nonverifiable@)
    }

    /// The empty state that precedes the first commit.
    pub fn pre_genesis() -> (r: Snapshot)
        ensures
            r.wf(),
            r.version is None,
            r@ == Map::<Seq<u8>, Seq<u8>>::empty(),
            r.nonverifiable_view() == Map::<Seq<u8>, Seq<u8>>::empty(),
    {
        let r = Snapshot {
            version: None,
            data: Arc::new(Layer::new()),
            nonverifiable: Arc::new(Layer::new()),
        };
        assert(r@ =~= Map::<Seq<u8>, Seq<u8>>::empty());
        assert(r.nonverifiable_view() =~= Map::<Seq<u8>, Seq<u8>>::empty());
        r
    }

    pub fn version(&self) -> (r: Option<u64>)
        ensures
            r == self.version,
    {
        self.version
    }

    /// The value stored under `key`.
    pub fn get_raw(&self, key: &[u8]) -> (r: Option<Vec<u8>>)
        requires
            self.wf(),
        ensures
            opt_view(r) == self@.get(key@),
    {
        match self.data.lookup(key) {
            Some(Some(v)) => Some(v),
            _ => None,
        }
    }

    /// The value that the side store holds under `key`.
    pub fn nonverifiable_get_raw(&self, key: &[u8]) -> (r: Option<Vec<u8>>)
        requires
            self.wf(),
        ensures
            opt_view(r) == self.nonverifiable_view().get(key@),
    {
        match self.nonverifiable.lookup(key) {
            Some(Some(v)) => Some(v),
            _ => None,
        }
    }

    /// Every entry whose key starts with `prefix`, in ascending key order.
    pub fn prefix_raw(&self, prefix: &[u8]) -> (r: Vec<(Vec<u8>, Vec<u8>)>)
        requires
            self.wf(),
        ensures
            lists(r@, self@, prefix@),
    {
        self.data.live_with_prefix(prefix)
    }

    /// Every side-store entry whose key starts with `prefix`, in ascending
    /// key order.
    pub fn nonverifiable_prefix_raw(&self, prefix: &[u8]) -> (r: Vec<(Vec<u8>, Vec<u8>)>)
        requires
            self.wf(),
        ensures
            lists(r@, self.nonverifiable_view(), prefix@),
    {
        self.nonverifiable.live_with_prefix(prefix)
    }

    /// A fresh delta over this snapshot, with no staged writes.
    pub fn delta(&self) -> (r: StateDelta)
        requires
            self.wf(),
        ensures
            r.wf(),
            r.base == *self,
            r.depth() == 1,
            r@ == self@,
            r.nonverifiable_view() == self.nonverifiable_view(),
            r.layers@[0]@ == Map::<Seq<u8>, Option<Seq<u8>>>::empty(),
            r.nonverifiable@[0]@ == Map::<Seq<u8>, Option<Seq<u8>>>::empty(),
    {
        let mut layers: Vec<Layer> = Vec::new();
        push_layer(&mut layers);
        let mut nonverifiable: Vec<Layer> = Vec::new();
        push_layer(&mut nonverifiable);
        let r = StateDelta { base: self.clone(), layers, nonverifiable };
        proof {
            assert(r.layers@[0] == r.layers@.last());
            assert(r.nonverifiable@[0] == r.nonverifiable@.last());
            assert(stacked(self.data@, Seq::<Layer>::empty()) == self.data@);
            assert(stacked(self.nonverifiable@, Seq::<Layer>::empty()) == self.nonverifiable@);
        }
        r
    }
}

/// A stack of overlays of staged writes over a snapshot. The bottom layer
/// is the delta itself; each layer above it is a nested transaction. The
/// side store has a stack of its own, of the same depth.
pub struct StateDelta {
    pub base: Snapshot,
    pub layers: Vec<Layer>,
    pub nonverifiable: Vec<Layer>,
}

impl View for StateDelta {
    type V = Map<Seq<u8>, Seq<u8>>;

    open spec fn view(&self) -> Map<Seq<u8>, Seq<u8>> {
        live(self.staged())
    }
}

impl StateDelta {
    pub open spec fn wf(&self) -> bool {
        &&& self.base.wf()
        &&& self.layers@.len() >= 1
        &&& self.nonverifiable@.len() == self.layers@.len()
        &&& all_wf(self.layers@)
        &&& all_wf(self.nonverifiable@)
    }

    pub open spec fn depth(&self) -> nat {
        self.layers@.len()
    }

    /// Every staged write over the snapshot's contents.
    pub open spec fn staged(&self) -> Map<Seq<u8>, Option<Seq<u8>>> {
        stacked(self.base.data@, self.layers@)
    }

    /// What the side store reads through this delta.
    pub open spec fn nonverifiable_view(&self) -> Map<Seq<u8>, Seq<u8>> {
        live(stacked(self.base.nonverifiable@, self.nonverifiable@))
    }

    /// What the enclosing delta reads, without the innermost transaction.
    pub open spec fn parent_view(&self) -> Map<Seq<u8>, Seq<u8>> {
        live(stacked(self.base.data@, self.layers@.drop_last()))
    }

    /// Some layer holds a write for `k`.
    pub open spec fn touches(&self, k: Seq<u8>) -> bool {
        exists|i: int| 0 <= i < self.layers@.len() && (#[trigger] self.layers@[i])@.contains_key(k)
    }
}

impl StateDelta {
    /// The value that this delta reads under `key`: the innermost staged
    /// write for it, or else the snapshot's value.
    pub fn get_raw(&self, key: &[u8]) -> (r: Option<Vec<u8>>)
        requires
            self.wf(),
        ensures
            opt_view(r) == self@.get(key@),
    {
        read_through(&self.base.data, &self.layers, key)
    }

    /// The value that the side store reads under `key` through this delta.
    pub fn nonverifiable_get_raw(&self, key: &[u8]) -> (r: Option<Vec<u8>>)
        requires
            self.wf(),
        ensures
            opt_view(r) == self.nonverifiable_view().get(key@),
    {
        read_through(&self.base.nonverifiable, &self.nonverifiable, key)
    }

    /// Puts `value` under `key`. An empty key is refused.
    pub fn put_raw(&mut self, key: Vec<u8>, value: Vec<u8>) -> (r: Result<(), StorageError>)
        requires
            old(self).wf(),
        ensures
            final(self).wf(),
            r is Err <==> key@.len() == 0,
            r is Err ==> r == Err::<(), StorageError>(StorageError::EmptyKey) && *final(self)
                == *old(self),
            r is Ok ==> {
                &&& final(self).base == old(self).base
                &&& final(self).nonverifiable == old(self).nonverifiable
                &&& final(self).depth() == old(self).depth()
                &&& final(self).layers@.drop_last() == old(self).layers@.drop_last()
                &&& final(self).layers@.last()@ == old(self).layers@.last()@.insert(
                    key@,
                    Some(value@),
                )
                &&& final(self)@ == old(self)@.insert(key@, value@)
            },
    {
        if key.len() == 0 {
            return Err(StorageError::EmptyKey);
        }
        let ghost k = key@;
        let ghost v = value@;
        stage_in(&mut self.layers, key, Some(value));
        assert(stacked(self.base.data@, self.layers@) == stacked(self.base.data@, old(self).layers@).insert(k, Some(v)));
        assert(self@ =~= old(self)@.insert(k, v));
        Ok(())
    }

    /// Deletes `key`, masking any value below. An empty key is refused.
    pub fn delete(&mut self, key: Vec<u8>) -> (r: Result<(), StorageError>)
        requires
            old(self).wf(),
        ensures
            final(self).wf(),
            r is Err <==> key@.len() == 0,
            r is Err ==> r == Err::<(), StorageError>(StorageError::EmptyKey) && *final(self)
                == *old(self),
            r is Ok ==> {
                &&& final(self).base == old(self).base
                &&& final(self).nonverifiable == old(self).nonverifiable
                &&& final(self).depth() == old(self).depth()
                &&& final(self).layers@.drop_last() == old(self).layers@.drop_last()
                &&& final(self).layers@.last()@ == old(self).layers@.last()@.insert(key@, None)
                &&& final(self)@ == old(self)@.remove(key@)
            },
    {
        if key.len() == 0 {
            return Err(StorageError::EmptyKey);
        }
        let ghost k = key@;
        stage_in(&mut self.layers, key, None);
        assert(stacked(self.base.data@, self.layers@) == stacked(self.base.data@, old(self).layers@).insert(k, None));
        assert(self@ =~= old(self)@.remove(k));
        Ok(())
    }

    /// Puts `value` under `key` in the side store. An empty key is refused.
    pub fn nonverifiable_put_raw(&mut self, key: Vec<u8>, value: Vec<u8>) -> (r: Result<(), StorageError>)
        requires
            old(self).wf(),
        ensures
            final(self).wf(),
            r is Err <==> key@.len() == 0,
            r is Err ==> r == Err::<(), StorageError>(StorageError::EmptyKey) && *final(self)
                == *old(self),
            r is Ok ==> {
                &&& final(self).base == old(self).base
                &&& final(self).layers == old(self).layers
                &&& final(self).nonverifiable@.drop_last() == old(self).nonverifiable@.drop_last()
                &&& final(self).nonverifiable@.last()@ == old(self).nonverifiable@.last()@.insert(
                    key@,
                    Some(value@),
                )
                &&& final(self).nonverifiable_view() == old(self).nonverifiable_view().insert(
                    key@,
                    value@,
                )
            },
    {
        if key.len() == 0 {
            return Err(StorageError::EmptyKey);
        }
        let ghost k = key@;
        let ghost v = value@;
        stage_in(&mut self.nonverifiable, key, Some(value));
        assert(stacked(self.base.nonverifiable@, self.nonverifiable@) == stacked(self.base.nonverifiable@, old(self).nonverifiable@).insert(k, Some(v)));
        assert(self.nonverifiable_view() =~= old(self).nonverifiable_view().insert(k, v));
        Ok(())
    }

    /// Deletes `key` from the side store. An empty key is refused.
    pub fn nonverifiable_delete(&mut self, key: Vec<u8>) -> (r: Result<(), StorageError>)
        requires
            old(self).wf(),
        ensures
            final(self).wf(),
            r is Err <==> key@.len() == 0,
            r is Err ==> r == Err::<(), StorageError>(StorageError::EmptyKey) && *final(self)
                == *old(self),
            r is Ok ==> {
                &&& final(self).base == old(self).base
                &&& final(self).layers == old(self).layers
                &&& final(self).nonverifiable@.drop_last() == old(self).nonverifiable@.drop_last()
                &&& final(self).nonverifiable@.last()@ == old(self).nonverifiable@.last()@.insert(
                    key@,
                    None,
                )
                &&& final(self).nonverifiable_view() == old(self).nonverifiable_view().remove(key@)
            },
    {
        if key.len() == 0 {
            return Err(StorageError::EmptyKey);
        }
        let ghost k = key@;
        stage_in(&mut self.nonverifiable, key, None);
        assert(stacked(self.base.nonverifiable@, self.nonverifiable@) == stacked(self.base.nonverifiable@, old(self).nonverifiable@).insert(k, None));
        assert(self.nonverifiable_view() =~= old(self).nonverifiable_view().remove(k));
        Ok(())
    }

    /// Opens a nested transaction: a child whose writes stay invisible to
    /// this delta until it is applied.
    pub fn begin_transaction(self) -> (r: StateDelta)
        requires
            self.wf(),
        ensures
            r.wf(),
            r.base == self.base,
            r.depth() == self.depth() + 1,
            r.layers@.drop_last() == self.layers@,
            r.nonverifiable@.drop_last() == self.nonverifiable@,
            r.layers@.last()@ == Map::<Seq<u8>, Option<Seq<u8>>>::empty(),
            r.nonverifiable@.last()@ == Map::<Seq<u8>, Option<Seq<u8>>>::empty(),
            r@ == self@,
            r.nonverifiable_view() == self.nonverifiable_view(),
            r.parent_view() == self@,
    {
        let mut d = self;
        push_layer(&mut d.layers);
        push_layer(&mut d.nonverifiable);
        assert(stacked(d.base.data@, d.layers@) == stacked(d.base.data@, self.layers@));
        assert(stacked(d.base.nonverifiable@, d.nonverifiable@) == stacked(d.base.nonverifiable@, self.nonverifiable@));
        d
    }

    /// Applies the innermost transaction to its parent: the child's writes
    /// override the parent's key by key, in both stores.
    pub fn apply(self) -> (r: StateDelta)
        requires
            self.wf(),
            self.depth() >= 2,
        ensures
            r.wf(),
            r.base == self.base,
            r.depth() == self.depth() - 1,
            r.layers@.drop_last() == self.layers@.take(self.layers@.len() - 2),
            r.layers@.last()@ == self.layers@[self.layers@.len() - 2]@.union_prefer_right(
                self.layers@.last()@,
            ),
            r.nonverifiable@.drop_last() == self.nonverifiable@.take(self.nonverifiable@.len() - 2),
            r.nonverifiable@.last()@ == self.nonverifiable@[self.nonverifiable@.len()
                - 2]@.union_prefer_right(self.nonverifiable@.last()@),
            r@ == self@,
            r.nonverifiable_view() == self.nonverifiable_view(),
    {
        let mut d = self;
        merge_top(&mut d.layers);
        merge_top(&mut d.nonverifiable);
        assert(stacked(d.base.data@, d.layers@) == stacked(d.base.data@, self.layers@));
        assert(stacked(d.base.nonverifiable@, d.nonverifiable@) == stacked(d.base.nonverifiable@, self.nonverifiable@));
        d
    }

    /// Drops the innermost transaction, leaving its parent as it was.
    pub fn abort(self) -> (r: StateDelta)
        requires
            self.wf(),
            self.depth() >= 2,
        ensures
            r.wf(),
            r.base == self.base,
            r.layers@ == self.layers@.drop_last(),
            r.nonverifiable@ == self.nonverifiable@.drop_last(),
            r@ == self.parent_view(),
    {
        let ghost before = self;
        let mut d = self;
        let _child = d.layers.pop();
        let _side = d.nonverifiable.pop();
        proof {
            assert(d.layers@ =~= before.layers@.drop_last());
            assert(d.nonverifiable@ =~= before.nonverifiable@.drop_last());
        }
        d
    }

    /// The snapshot's contents with every staged write applied.
    pub fn flatten(&self) -> (r: Layer)
        requires
            self.wf(),
        ensures
            r.wf(),
            r@ == self.staged(),
    {
        flatten_over(&self.base.data, &self.layers)
    }

    /// The snapshot's side store with every staged side-store write applied.
    pub fn flatten_nonverifiable(&self) -> (r: Layer)
        requires
            self.wf(),
        ensures
            r.wf(),
            r@ == stacked(self.base.nonverifiable@, self.nonverifiable@),
    {
        flatten_over(&self.base.nonverifiable, &self.nonverifiable)
    }

    /// Every entry that this delta reads whose key starts with `prefix`, in
    /// ascending key order; staged writes win over the snapshot's values,
    /// and deleted keys are left out.
    pub fn prefix_raw(&self, prefix: &[u8]) -> (r: Vec<(Vec<u8>, Vec<u8>)>)
        requires
            self.wf(),
        ensures
            lists(r@, self@, prefix@),
    {
        let flat = self.flatten();
        flat.live_with_prefix(prefix)
    }

    /// Every side-store entry that this delta reads whose key starts with
    /// `prefix`, in ascending key order.
    pub fn nonverifiable_prefix_raw(&self, prefix: &[u8]) -> (r: Vec<(Vec<u8>, Vec<u8>)>)
        requires
            self.wf(),
        ensures
            lists(r@, self.nonverifiable_view(), prefix@),
    {
        let flat = self.flatten_nonverifiable();
        flat.live_with_prefix(prefix)
    }
}

proof fn lemma_stacked_untouched(b: Map<Seq<u8>, Option<Seq<u8>>>, layers: Seq<Layer>, k: Seq<u8>)
    requires
        forall|i: int| 0 <= i < layers.len() ==> !(#[trigger] layers[i])@.contains_key(k),
    ensures
        stacked(b, layers).get(k) == b.get(k),
    decreases layers.len(),
{
    if layers.len() > 0 {
        let d = layers.drop_last();
        assert forall|i: int| 0 <= i < d.len() implies !(#[trigger] d[i])@.contains_key(k) by {
            assert(d[i] == layers[i]);
        }
        assert(layers.last() == layers[layers.len() - 1]);
        lemma_stacked_untouched(b, d, k);
    }
}

/// A key that no layer of a delta has written reads as in the delta's
/// snapshot.
pub proof fn law_untouched_key_reads_snapshot(d: StateDelta, k: Seq<u8>)
    requires
        !d.touches(k),
    ensures
        d@.get(k) == d.base@.get(k),
{
    assert forall|i: int| 0 <= i < d.layers@.len() implies !(#[trigger] d.layers@[i])@.contains_key(k) by {
        if d.layers@[i]@.contains_key(k) {
            assert(d.touches(k));
        }
    }
    lemma_stacked_untouched(d.base.data@, d.layers@, k);
    lemma_live_get(d.staged(), k);
    lemma_live_get(d.base.data@, k);
}

/// A put is read back by the same delta.
pub proof fn law_put_then_get(before: StateDelta, after: StateDelta, k: Seq<u8>, v: Seq<u8>)
    requires
        after@ == before@.insert(k, v),
    ensures
        after@.get(k) == Some(v),
{
}

/// A delete after a put leaves the key unread in the same delta.
pub proof fn law_put_delete_then_get(
    d0: StateDelta,
    d1: StateDelta,
    d2: StateDelta,
    k: Seq<u8>,
    v: Seq<u8>,
)
    requires
        d1@ == d0@.insert(k, v),
        d2@ == d1@.remove(k),
    ensures
        d2@.get(k) is None,
{
}

/// Applying transactions is associative: applying `c` over `b` and the
/// result over `a` stages the same writes as applying `b` over `a` and
/// then `c` over that.
pub proof fn law_apply_associative(
    a: Map<Seq<u8>, Option<Seq<u8>>>,
    b: Map<Seq<u8>, Option<Seq<u8>>>,
    c: Map<Seq<u8>, Option<Seq<u8>>>,
)
    ensures
        a.union_prefer_right(b).union_prefer_right(c) == a.union_prefer_right(
            b.union_prefer_right(c),
        ),
{
    assert(a.union_prefer_right(b).union_prefer_right(c) =~= a.union_prefer_right(
        b.union_prefer_right(c),
    ));
}

/// A listing for the empty prefix holds every entry, in ascending key order.
pub proof fn law_empty_prefix_lists_all(out: Seq<(Vec<u8>, Vec<u8>)>, m: Map<Seq<u8>, Seq<u8>>)
    requires
        lists(out, m, Seq::<u8>::empty()),
    ensures
        forall|i: int, j: int| 0 <= i < j < out.len() ==> lex_lt(out[i].0@, out[j].0@),
        forall|i: int| 0 <= i < out.len() ==> m.contains_key(#[trigger] out[i].0@) && m[out[i].0@] == out[i].1@,
        forall|k: Seq<u8>| #[trigger] m.contains_key(k) ==> exists|i: int| 0 <= i < out.len() && out[i].0@ == k,
{
    assert forall|k: Seq<u8>| #[trigger] m.contains_key(k) implies exists|i: int| 0 <= i < out.len() && out[i].0@ == k by {
        assert(Seq::<u8>::empty().is_prefix_of(k));
    }
}

} // verus!
