use vstd::prelude::*;

use crate::bytes::{
    bytes_eq, bytes_lt, copy_bytes, has_prefix, lemma_lex_lt_irreflexive, lemma_lex_lt_total,
    lemma_lex_lt_transitive, lex_lt,
};

verus! {

/// A staged write: `Some` puts a value under the key, `None` deletes it.
pub struct Change {
    pub key: Vec<u8>,
    pub value: Option<Vec<u8>>,
}

pub open spec fn opt_view(o: Option<Vec<u8>>) -> Option<Seq<u8>> {
    match o {
        Some(v) => Some(v@),
        None => None,
    }
}

/// Keys strictly ascend in lexicographic order.
pub open spec fn sorted(s: Seq<Change>) -> bool {
    forall|i: int, j: int| 0 <= i < j < s.len() ==> lex_lt(s[i].key@, s[j].key@)
}

pub open spec fn has_key(s: Seq<Change>, k: Seq<u8>) -> bool {
    exists|i: int| 0 <= i < s.len() && s[i].key@ == k
}

/// Where the entry for `k` stands.
pub open spec fn index_of(s: Seq<Change>, k: Seq<u8>) -> int {
    choose|i: int| 0 <= i < s.len() && s[i].key@ == k
}

/// The changes as a map from key to write (`None` marks a delete).
pub open spec fn changes_map(s: Seq<Change>) -> Map<Seq<u8>, Option<Seq<u8>>> {
    Map::new(
        |k: Seq<u8>| has_key(s, k),
        |k: Seq<u8>| opt_view(s[index_of(s, k)].value),
    )
}

pub proof fn lemma_changes_map_at(s: Seq<Change>, i: int)
    requires
        sorted(s),
        0 <= i < s.len(),
    ensures
        changes_map(s).contains_key(s[i].key@),
        changes_map(s)[s[i].key@] == opt_view(s[i].value),
{
    let k = s[i].key@;
    assert(has_key(s, k));
    let j = index_of(s, k);
    if j < i {
        assert(lex_lt(s[j].key@, s[i].key@));
        lemma_lex_lt_irreflexive(k);
    } else if j > i {
        assert(lex_lt(s[i].key@, s[j].key@));
        lemma_lex_lt_irreflexive(k);
    }
}

/// One overlay of staged writes, kept sorted by key.
pub struct Layer {
    pub entries: Vec<Change>,
}

impl View for Layer {
    type V = Map<Seq<u8>, Option<Seq<u8>>>;

    open spec fn view(&self) -> Map<Seq<u8>, Option<Seq<u8>>> {
        changes_map(self.entries@)
    }
}

impl Layer {
    pub open spec fn wf(&self) -> bool {
        sorted(self.entries@)
    }

    pub fn new() -> (r: Layer)
        ensures
            r.wf(),
            r@ == Map::<Seq<u8>, Option<Seq<u8>>>::empty(),
    {
        let r = Layer { entries: Vec::new() };
        assert(r@ =~= Map::<Seq<u8>, Option<Seq<u8>>>::empty());
        r
    }

    /// The index of the entry for `key`, if any.
    pub fn find(&self, key: &[u8]) -> (r: Option<usize>)
        requires
            self.wf(),
        ensures
            match r {
                Some(i) => i < self.entries@.len() && self.entries@[i as int].key@ == key@,
                None => !self@.contains_key(key@),
            },
    {
        let mut i: usize = 0;
        while i < self.entries.len()
            invariant
                i <= self.entries@.len(),
                forall|j: int| 0 <= j < i ==> self.entries@[j].key@ != key@,
            decreases self.entries@.len() - i,
        {
            if bytes_eq(self.entries[i].key.as_slice(), key) {
                return Some(i);
            }
            i = i + 1;
        }
        None
    }

    /// The staged write for `key`: `None` when nothing is staged,
    /// `Some(None)` for a delete.
    pub fn lookup(&self, key: &[u8]) -> (r: Option<Option<Vec<u8>>>)
        requires
            self.wf(),
        ensures
            match r {
                Some(w) => self@.contains_key(key@) && self@[key@] == opt_view(w),
                None => !self@.contains_key(key@),
            },
    {
        match self.find(key) {
            Some(i) => {
                proof {
                    lemma_changes_map_at(self.entries@, i as int);
                }
                match &self.entries[i].value {
                    Some(v) => Some(Some(copy_bytes(v))),
                    None => Some(None),
                }
            },
            None => None,
        }
    }

    /// The first index whose key does not come before `key`.
    fn lower_bound(&self, key: &[u8]) -> (r: usize)
        ensures
            r <= self.entries@.len(),
            forall|j: int| 0 <= j < r ==> lex_lt(#[trigger] self.entries@[j].key@, key@),
            r < self.entries@.len() ==> !lex_lt(self.entries@[r as int].key@, key@),
    {
        let mut i: usize = 0;
        while i < self.entries.len()
            invariant
                i <= self.entries@.len(),
                forall|j: int| 0 <= j < i ==> lex_lt(#[trigger] self.entries@[j].key@, key@),
            decreases self.entries@.len() - i,
        {
            if !bytes_lt(self.entries[i].key.as_slice(), key) {
                return i;
            }
            i = i + 1;
        }
        i
    }

    /// Stages `value` under `key`, replacing what was staged there.
    pub fn insert(&mut self, key: Vec<u8>, value: Option<Vec<u8>>)
        requires
            old(self).wf(),
        ensures
            final(self).wf(),
            final(self)@ == old(self)@.insert(key@, opt_view(value)),
    {
        let ghost k = key@;
        let ghost v = opt_view(value);
        let ghost s = self.entries@;
        let i = self.lower_bound(key.as_slice());
        if i < self.entries.len() && bytes_eq(self.entries[i].key.as_slice(), key.as_slice()) {
            self.entries.set(i, Change { key, value });
            proof {
                let n = self.entries@;
                assert(sorted(n));
                assert forall|q: Seq<u8>| #[trigger] changes_map(n).contains_key(q) <==> old(self)@.insert(k, v).contains_key(q) by {
                    if has_key(s, q) {
                        let j = choose|j: int| 0 <= j < s.len() && s[j].key@ == q;
                        assert(n[j].key@ == q);
                    }
                    if has_key(n, q) {
                        let j = choose|j: int| 0 <= j < n.len() && n[j].key@ == q;
                        assert(s[j].key@ == q);
                    }
                }
                assert forall|q: Seq<u8>| #[trigger] changes_map(n).contains_key(q) implies changes_map(n)[q] == old(self)@.insert(k, v)[q] by {
                    let j = choose|j: int| 0 <= j < n.len() && n[j].key@ == q;
                    lemma_changes_map_at(n, j);
                    if q != k {
                        assert(j != i);
                        assert(n[j] == s[j]);
                        lemma_changes_map_at(s, j);
                    } else {
                        lemma_changes_map_at(n, i as int);
                    }
                }
                assert(changes_map(n) =~= old(self)@.insert(k, v));
            }
        } else {
            let ghost pos = i as int;
            proof {
                if i < s.len() {
                    lemma_lex_lt_total(s[pos].key@, k);
                    assert forall|j: int| pos <= j < s.len() implies lex_lt(k, #[trigger] s[j].key@) by {
                        if j > pos {
                            lemma_lex_lt_transitive(k, s[pos].key@, s[j].key@);
                        }
                    }
                }
            }
            self.entries.insert(i, Change { key, value });
            proof {
                let n = self.entries@;
                assert(n =~= s.insert(pos, n[pos]));
                assert forall|a: int, b: int| 0 <= a < b < n.len() implies lex_lt(n[a].key@, n[b].key@) by {
                    if a < pos && b > pos {
                        lemma_lex_lt_transitive(n[a].key@, k, n[b].key@);
                    }
                }
                assert forall|q: Seq<u8>| #[trigger] changes_map(n).contains_key(q) <==> old(self)@.insert(k, v).contains_key(q) by {
                    if has_key(s, q) {
                        let j = choose|j: int| 0 <= j < s.len() && s[j].key@ == q;
                        if j < pos {
                            assert(n[j].key@ == q);
                        } else {
                            assert(n[j + 1].key@ == q);
                        }
                    }
                    if q == k {
                        assert(n[pos].key@ == q);
                    }
                    if has_key(n, q) {
                        let j = choose|j: int| 0 <= j < n.len() && n[j].key@ == q;
                        if j < pos {
                            assert(s[j].key@ == q);
                        } else if j > pos {
                            assert(s[j - 1].key@ == q);
                        }
                    }
                }
                assert forall|q: Seq<u8>| #[trigger] changes_map(n).contains_key(q) implies changes_map(n)[q] == old(self)@.insert(k, v)[q] by {
                    let j = choose|j: int| 0 <= j < n.len() && n[j].key@ == q;
                    lemma_changes_map_at(n, j);
                    lemma_lex_lt_irreflexive(k);
                    if j < pos {
                        assert(n[j] == s[j]);
                        assert(lex_lt(s[j].key@, k));
                        lemma_changes_map_at(s, j);
                    } else if j > pos {
                        assert(n[j] == s[j - 1]);
                        assert(lex_lt(k, s[j - 1].key@));
                        lemma_changes_map_at(s, j - 1);
                    } else {
                        assert(n[j].key@ == k);
                    }
                }
                assert(changes_map(n) =~= old(self)@.insert(k, v));
            }
        }
    }
}

/// The keys that hold a value, with their values; deleted keys are absent.
pub open spec fn live(m: Map<Seq<u8>, Option<Seq<u8>>>) -> Map<Seq<u8>, Seq<u8>> {
    Map::new(|k: Seq<u8>| m.contains_key(k) && m[k] is Some, |k: Seq<u8>| m[k]->0)
}

/// `out` lists, in strictly ascending key order, exactly the entries of `m`
/// whose key starts with `prefix`.
pub open spec fn lists(
    out: Seq<(Vec<u8>, Vec<u8>)>,
    m: Map<Seq<u8>, Seq<u8>>,
    prefix: Seq<u8>,
) -> bool {
    &&& forall|i: int, j: int| 0 <= i < j < out.len() ==> lex_lt(out[i].0@, out[j].0@)
    &&& forall|i: int|
        0 <= i < out.len() ==> prefix.is_prefix_of(#[trigger] out[i].0@) && m.contains_key(
            out[i].0@,
        ) && m[out[i].0@] == out[i].1@
    &&& forall|k: Seq<u8>|
        prefix.is_prefix_of(k) && #[trigger] m.contains_key(k) ==> exists|i: int|
            0 <= i < out.len() && out[i].0@ == k
}

pub proof fn lemma_changes_map_take(s: Seq<Change>, i: int)
    requires
        sorted(s),
        0 <= i < s.len(),
    ensures
        changes_map(s.take(i + 1)) == changes_map(s.take(i)).insert(s[i].key@, opt_view(s[i].value)),
{
    let a = s.take(i + 1);
    let b = s.take(i);
    let k = s[i].key@;
    assert(sorted(a));
    assert(sorted(b));
    let r = changes_map(b).insert(k, opt_view(s[i].value));
    assert forall|q: Seq<u8>| #[trigger] changes_map(a).contains_key(q) <==> r.contains_key(q) by {
        if has_key(b, q) {
            let j = choose|j: int| 0 <= j < b.len() && b[j].key@ == q;
            assert(a[j].key@ == q);
        }
        if q == k {
            assert(a[i].key@ == q);
        }
        if has_key(a, q) {
            let j = choose|j: int| 0 <= j < a.len() && a[j].key@ == q;
            if j < i {
                assert(b[j].key@ == q);
            }
        }
    }
    assert forall|q: Seq<u8>| #[trigger] changes_map(a).contains_key(q) implies changes_map(a)[q] == r[q] by {
        let j = choose|j: int| 0 <= j < a.len() && a[j].key@ == q;
        lemma_changes_map_at(a, j);
        if j < i {
            assert(lex_lt(s[j].key@, k));
            lemma_lex_lt_irreflexive(k);
            lemma_changes_map_at(b, j);
        }
    }
    assert(changes_map(a) =~= r);
}

/// Copies a staged write.
pub fn copy_write(o: &Option<Vec<u8>>) -> (r: Option<Vec<u8>>)
    ensures
        opt_view(r) == opt_view(*o),
{
    match o {
        Some(v) => Some(copy_bytes(v)),
        None => None,
    }
}

pub proof fn lemma_live_get(m: Map<Seq<u8>, Option<Seq<u8>>>, k: Seq<u8>)
    ensures
        live(m).get(k) == (match m.get(k) {
            Some(o) => o,
            None => None,
        }),
{
}

impl Layer {
    /// A copy of this layer.
    pub fn copy(&self) -> (r: Layer)
        requires
            self.wf(),
        ensures
            r.wf(),
            r@ == self@,
    {
        let mut r = Layer::new();
        r.merge_from(self);
        assert(r@ =~= self@);
        r
    }

    /// Stages every write of `other` over this layer's; `other` wins on
    /// keys that both hold.
    pub fn merge_from(&mut self, other: &Layer)
        requires
            old(self).wf(),
            other.wf(),
        ensures
            final(self).wf(),
            final(self)@ == old(self)@.union_prefer_right(other@),
    {
        let ghost s = other.entries@;
        let mut i: usize = 0;
        assert(changes_map(s.take(0)) =~= Map::<Seq<u8>, Option<Seq<u8>>>::empty());
        assert(old(self)@ =~= old(self)@.union_prefer_right(changes_map(s.take(0))));
        while i < other.entries.len()
            invariant
                self.wf(),
                other.wf(),
                s == other.entries@,
                i <= s.len(),
                self@ == old(self)@.union_prefer_right(changes_map(s.take(i as int))),
            decreases s.len() - i,
        {
            let c = &other.entries[i];
            self.insert(copy_bytes(&c.key), copy_write(&c.value));
            proof {
                lemma_changes_map_take(s, i as int);
                assert(self@ =~= old(self)@.union_prefer_right(changes_map(s.take(i + 1))));
            }
            i = i + 1;
        }
        assert(s.take(s.len() as int) =~= s);
    }

    /// The live entries whose key starts with `prefix`, in ascending key order.
    pub fn live_with_prefix(&self, prefix: &[u8]) -> (r: Vec<(Vec<u8>, Vec<u8>)>)
        requires
            self.wf(),
        ensures
            lists(r@, live(self@), prefix@),
    {
        let ghost s = self.entries@;
        let ghost m = live(self@);
        let mut out: Vec<(Vec<u8>, Vec<u8>)> = Vec::new();
        let mut i: usize = 0;
        while i < self.entries.len()
            invariant
                s == self.entries@,
                m == live(self@),
                self.wf(),
                i <= s.len(),
                forall|a: int, b: int| 0 <= a < b < out@.len() ==> lex_lt(out@[a].0@, out@[b].0@),
                forall|a: int, j: int|
                    0 <= a < out@.len() && i <= j < s.len() ==> lex_lt(#[trigger] out@[a].0@, #[trigger] s[j].key@),
                forall|a: int|
                    0 <= a < out@.len() ==> prefix@.is_prefix_of(#[trigger] out@[a].0@) && m.contains_key(
                        out@[a].0@,
                    ) && m[out@[a].0@] == out@[a].1@,
                forall|j: int|
                    0 <= j < i && prefix@.is_prefix_of(#[trigger] s[j].key@) && s[j].value is Some
                        ==> exists|a: int| 0 <= a < out@.len() && out@[a].0@ == s[j].key@,
            decreases s.len() - i,
        {
            let c = &self.entries[i];
            if has_prefix(c.key.as_slice(), prefix) {
                match &c.value {
                    Some(v) => {
                        proof {
                            lemma_changes_map_at(s, i as int);
                        }
                        let ghost before = out@;
                        out.push((copy_bytes(&c.key), copy_bytes(v)));
                        proof {
                            assert(out@[before.len() as int].0@ == s[i as int].key@);
                            assert(self@[s[i as int].key@] == Some(v@));
                            assert(m.contains_key(s[i as int].key@));
                            assert(m[s[i as int].key@] == v@);
                            assert(out@[before.len() as int].1@ == v@);
                            assert(prefix@.is_prefix_of(out@[before.len() as int].0@));
                            assert forall|a: int, j: int|
                                0 <= a < out@.len() && i + 1 <= j < s.len() implies lex_lt(#[trigger] out@[a].0@, #[trigger] s[j].key@) by {
                                if a == before.len() {
                                    assert(lex_lt(s[i as int].key@, s[j].key@));
                                }
                            }
                            assert forall|j: int|
                                0 <= j < i + 1 && prefix@.is_prefix_of(#[trigger] s[j].key@) && s[j].value is Some
                                implies exists|a: int| 0 <= a < out@.len() && out@[a].0@ == s[j].key@ by {
                                if j == i {
                                    assert(out@[before.len() as int].0@ == s[j].key@);
                                } else {
                                    let a = choose|a: int| 0 <= a < before.len() && before[a].0@ == s[j].key@;
                                    assert(out@[a].0@ == s[j].key@);
                                }
                            }
                        }
                    },
                    None => {},
                }
            }
            i = i + 1;
        }
        proof {
            assert forall|k: Seq<u8>| prefix@.is_prefix_of(k) && #[trigger] m.contains_key(k) implies exists|a: int|
                0 <= a < out@.len() && out@[a].0@ == k by {
                let j = index_of(s, k);
                lemma_changes_map_at(s, j);
                assert(prefix@.is_prefix_of(s[j].key@));
            }
        }
        out
    }
}

} // verus!
