use std::sync::Arc;

use vstd::prelude::*;
use vstd::string::StringSliceAdditionalSpecFns;

use crate::bytes::{bytes_eq, has_prefix, lemma_encoded_prefix_char_boundary};
use crate::share;
use crate::substore::SubstoreConfig;

verus! {

/// The first substore, from index `i` on, whose prefix starts `key`; `main` where none does.
pub open spec fn find_from(
    subs: Seq<Arc<SubstoreConfig>>,
    main: Arc<SubstoreConfig>,
    key: Seq<u8>,
    i: int,
) -> Arc<SubstoreConfig>
    decreases subs.len() - i,
{
    if i < 0 || i >= subs.len() {
        main
    } else if subs[i].prefix_bytes().is_prefix_of(key) {
        subs[i]
    } else {
        find_from(subs, main, key, i + 1)
    }
}

/// Why a substore configuration was refused.
#[derive(Debug, PartialEq, Eq, Structural)]
pub enum RoutingError {
    /// A substore has the empty prefix, which belongs to the main store.
    EmptyPrefix,
    /// Two substores have the same prefix.
    DuplicatePrefix,
}

pub open spec fn has_empty_prefix(subs: Seq<Arc<SubstoreConfig>>) -> bool {
    exists|i: int| 0 <= i < subs.len() && (#[trigger] subs[i]).prefix@.len() == 0
}

pub open spec fn has_duplicate_prefix(subs: Seq<Arc<SubstoreConfig>>) -> bool {
    exists|i: int, j: int| 0 <= i < j < subs.len() && (#[trigger] subs[i]).prefix@ == (#[trigger] subs[j]).prefix@
}

/// A collection of substores, each with a unique prefix, and a main store
/// that owns every key that no substore claims.
pub struct MultistoreConfig {
    pub main_store: Arc<SubstoreConfig>,
    pub substores: Vec<Arc<SubstoreConfig>>,
}

impl MultistoreConfig {
    /// The main store has the empty prefix.
    pub open spec fn wf(&self) -> bool {
        self.main_store.prefix@.len() == 0
    }

    /// The substore that owns `key` before the exact-prefix rule is applied.
    pub open spec fn spec_find_substore(&self, key: Seq<u8>) -> Arc<SubstoreConfig> {
        find_from(self.substores@, self.main_store, key, 0)
    }

    /// Where `key` is routed: the key within its substore, and that substore.
    /// A key equal to its substore's prefix goes to the main store unchanged.
    pub open spec fn spec_route(&self, key: Seq<u8>) -> (Seq<u8>, Arc<SubstoreConfig>) {
        let c = self.spec_find_substore(key);
        if key == c.prefix_bytes() {
            (key, self.main_store)
        } else {
            (key.subrange(c.prefix_bytes().len() as int, key.len() as int), c)
        }
    }

    /// No substore has the empty prefix, and no two share a prefix.
    pub open spec fn distinct(&self) -> bool {
        !has_empty_prefix(self.substores@) && !has_duplicate_prefix(self.substores@)
    }

    /// A configuration with the main store at the empty prefix and the
    /// given substores, searched in order.
    pub fn new(substores: Vec<Arc<SubstoreConfig>>) -> (r: Result<MultistoreConfig, RoutingError>)
        ensures
            match r {
                Ok(c) => c.wf() && c.distinct() && c.substores@ == substores@,
                Err(e) => if has_empty_prefix(substores@) {
                    e == RoutingError::EmptyPrefix
                } else {
                    e == RoutingError::DuplicatePrefix && has_duplicate_prefix(substores@)
                },
            },
    {
        let mut i: usize = 0;
        while i < substores.len()
            invariant
                i <= substores@.len(),
                forall|m: int| 0 <= m < i ==> (#[trigger] substores@[m]).prefix@.len() != 0,
            decreases substores@.len() - i,
        {
            if substores[i].prefix.as_str().is_empty() {
                return Err(RoutingError::EmptyPrefix);
            }
            i = i + 1;
        }
        let mut i: usize = 0;
        while i < substores.len()
            invariant
                i <= substores@.len(),
                !has_empty_prefix(substores@),
                forall|a: int, b: int|
                    0 <= a < i && a < b < substores@.len() ==> (#[trigger] substores@[a]).prefix@
                        != (#[trigger] substores@[b]).prefix@,
            decreases substores@.len() - i,
        {
            let mut j: usize = i + 1;
            while j < substores.len()
                invariant
                    i < substores@.len(),
                    i + 1 <= j <= substores@.len(),
                    !has_empty_prefix(substores@),
                    forall|a: int, b: int|
                        0 <= a < i && a < b < substores@.len() ==> (#[trigger] substores@[a]).prefix@
                            != (#[trigger] substores@[b]).prefix@,
                    forall|b: int| i < b < j ==> substores@[i as int].prefix@ != (#[trigger] substores@[b]).prefix@,
                decreases substores@.len() - j,
            {
                if substores[i].prefix == substores[j].prefix {
                    return Err(RoutingError::DuplicatePrefix);
                }
                j = j + 1;
            }
            i = i + 1;
        }
        let main_store = Arc::new(SubstoreConfig::new(""));
        proof {
            reveal_strlit("");
        }
        Ok(MultistoreConfig { main_store, substores })
    }

    pub fn iter(&self) -> (r: &[Arc<SubstoreConfig>])
        ensures
            r@ == self.substores@,
    {
        self.substores.as_slice()
    }

    /// Returns the first substore whose prefix starts `key`, or the main store.
    pub fn find_substore(&self, key: &[u8]) -> (r: Arc<SubstoreConfig>)
        ensures
            r == self.spec_find_substore(key@),
    {
        let mut i: usize = 0;
        while i < self.substores.len()
            invariant
                i <= self.substores@.len(),
                find_from(self.substores@, self.main_store, key@, 0) == find_from(
                    self.substores@,
                    self.main_store,
                    key@,
                    i as int,
                ),
            decreases self.substores@.len() - i,
        {
            let s = &self.substores[i];
            if has_prefix(key, s.prefix.as_str().as_bytes()) {
                return share(s);
            }
            i = i + 1;
        }
        share(&self.main_store)
    }

    /// Routes `key` to its substore; returns the key with the substore's
    /// prefix stripped, and the substore.
    pub fn route_key_bytes<'a>(&self, key: &'a [u8]) -> (r: (&'a [u8], Arc<SubstoreConfig>))
        requires
            self.wf(),
        ensures
            (r.0@, r.1) == self.spec_route(key@),
    {
        let config = self.find_substore(key);
        let p = config.prefix.as_str().as_bytes();
        if bytes_eq(key, p) {
            return (key, share(&self.main_store));
        }
        proof {
            if config != self.main_store {
                lemma_find_matches(self.substores@, self.main_store, key@, 0);
            }
        }
        let (_, rest) = key.split_at(p.len());
        (rest, config)
    }

    /// Routes a text key to its substore; returns the key with the
    /// substore's prefix stripped, and the substore.
    pub fn route_key_str<'a>(&self, key: &'a str) -> (r: (&'a str, Arc<SubstoreConfig>))
        requires
            self.wf(),
        ensures
            (r.0.spec_bytes(), r.1) == self.spec_route(key.spec_bytes()),
    {
        let b = key.as_bytes();
        let config = self.find_substore(b);
        let p = config.prefix.as_str().as_bytes();
        if bytes_eq(b, p) {
            return (key, share(&self.main_store));
        }
        proof {
            if config != self.main_store {
                lemma_find_matches(self.substores@, self.main_store, b@, 0);
            }
            lemma_encoded_prefix_char_boundary(key@, config.prefix@);
        }
        let (_, rest) = key.split_at(p.len());
        (rest, config)
    }
}

/// The substore that the search finds is the main store, or one whose prefix starts the key.
pub proof fn lemma_find_matches(
    subs: Seq<Arc<SubstoreConfig>>,
    main: Arc<SubstoreConfig>,
    key: Seq<u8>,
    i: int,
)
    ensures
        find_from(subs, main, key, i) == main || find_from(
            subs,
            main,
            key,
            i,
        ).prefix_bytes().is_prefix_of(key),
    decreases subs.len() - i,
{
    if 0 <= i < subs.len() && !subs[i].prefix_bytes().is_prefix_of(key) {
        lemma_find_matches(subs, main, key, i + 1);
    }
}

proof fn lemma_find_first(
    subs: Seq<Arc<SubstoreConfig>>,
    main: Arc<SubstoreConfig>,
    key: Seq<u8>,
    i: int,
    j: int,
)
    requires
        0 <= j <= i < subs.len(),
        subs[i].prefix_bytes().is_prefix_of(key),
        forall|m: int| 0 <= m < i ==> !(#[trigger] subs[m]).prefix_bytes().is_prefix_of(key),
    ensures
        find_from(subs, main, key, j) == subs[i],
    decreases i - j,
{
    if j < i {
        lemma_find_first(subs, main, key, i, j + 1);
    }
}

/// A key equal to the prefix of the substore that claims it is routed to
/// the main store, whole.
pub proof fn law_exact_prefix_routes_to_main(cfg: MultistoreConfig, key: Seq<u8>, i: int)
    requires
        cfg.wf(),
        0 <= i < cfg.substores@.len(),
        cfg.substores@[i].prefix_bytes() == key,
        forall|m: int|
            0 <= m < i ==> !(#[trigger] cfg.substores@[m]).prefix_bytes().is_prefix_of(key),
    ensures
        cfg.spec_route(key) == (key, cfg.main_store),
{
    assert(key.is_prefix_of(key)) by {
        assert(key =~= key.subrange(0, key.len() as int));
    }
    lemma_find_first(cfg.substores@, cfg.main_store, key, i, 0);
}

impl Default for MultistoreConfig {
    fn default() -> (r: Self)
        ensures
            r.wf(),
            r.substores@.len() == 0,
    {
        proof {
            reveal_strlit("");
        }
        MultistoreConfig { main_store: Arc::new(SubstoreConfig::new("")), substores: Vec::new() }
    }
}

} // verus!

verus! {

/// Tracks the latest version of each substore, and wraps a `MultistoreConfig`.
pub struct MultistoreCache {
    pub config: MultistoreConfig,
    /// One entry per substore that has a version, identified by prefix.
    pub substores: Vec<(Arc<SubstoreConfig>, jmt::Version)>,
}

impl MultistoreCache {
    /// No two entries are for the same prefix.
    pub open spec fn wf(&self) -> bool {
        forall|i: int, j: int|
            0 <= i < j < self.substores@.len() ==> self.substores@[i].0.prefix@
                != self.substores@[j].0.prefix@
    }

    /// The recorded versions, keyed by substore prefix.
    pub open spec fn versions(&self) -> Map<Seq<char>, u64> {
        Map::new(
            |p: Seq<char>| exists|i: int| 0 <= i < self.substores@.len() && self.substores@[i].0.prefix@ == p,
            |p: Seq<char>|
                self.substores@[choose|i: int|
                    0 <= i < self.substores@.len() && self.substores@[i].0.prefix@ == p].1,
        )
    }

    pub fn from_config(config: MultistoreConfig) -> (r: Self)
        ensures
            r.wf(),
            r.config == config,
            r.versions() == Map::<Seq<char>, u64>::empty(),
    {
        let r = MultistoreCache { config, substores: Vec::new() };
        assert(r.versions() =~= Map::<Seq<char>, u64>::empty());
        r
    }

    fn position(&self, prefix: &String) -> (r: Option<usize>)
        ensures
            match r {
                Some(i) => i < self.substores@.len() && self.substores@[i as int].0.prefix@ == prefix@,
                None => forall|i: int|
                    0 <= i < self.substores@.len() ==> self.substores@[i].0.prefix@ != prefix@,
            },
    {
        let mut i: usize = 0;
        while i < self.substores.len()
            invariant
                i <= self.substores@.len(),
                forall|j: int| 0 <= j < i ==> self.substores@[j].0.prefix@ != prefix@,
            decreases self.substores@.len() - i,
        {
            if self.substores[i].0.prefix == *prefix {
                return Some(i);
            }
            i = i + 1;
        }
        None
    }

    /// Records `version` as the latest version of `substore`.
    pub fn set_version(&mut self, substore: Arc<SubstoreConfig>, version: jmt::Version)
        requires
            old(self).wf(),
        ensures
            final(self).wf(),
            final(self).config == old(self).config,
            final(self).versions() == old(self).versions().insert(substore.prefix@, version),
    {
        let ghost p = substore.prefix@;
        match self.position(&substore.prefix) {
            Some(i) => {
                self.substores.set(i, (substore, version));
                proof {
                    let n = self.substores@;
                    assert forall|q: Seq<char>| #[trigger] self.versions().contains_key(q) implies self.versions()[q]
                        == old(self).versions().insert(p, version)[q] by {
                        let k = choose|k: int| 0 <= k < n.len() && n[k].0.prefix@ == q;
                        if q != p {
                            assert(old(self).substores@[k].0.prefix@ == q);
                        }
                    }
                    assert forall|q: Seq<char>| #[trigger] old(self).versions().contains_key(q) implies self.versions().contains_key(q) by {
                        let k = choose|k: int| 0 <= k < old(self).substores@.len() && old(self).substores@[k].0.prefix@ == q;
                        assert(n[k].0.prefix@ == q);
                    }
                    assert(self.versions().contains_key(p)) by {
                        assert(n[i as int].0.prefix@ == p);
                    }
                    assert(self.versions() =~= old(self).versions().insert(p, version));
                }
            },
            None => {
                self.substores.push((substore, version));
                proof {
                    let n = self.substores@;
                    let last = n.len() - 1;
                    assert forall|q: Seq<char>| #[trigger] self.versions().contains_key(q) implies self.versions()[q]
                        == old(self).versions().insert(p, version)[q] by {
                        let k = choose|k: int| 0 <= k < n.len() && n[k].0.prefix@ == q;
                        if q != p {
                            assert(old(self).substores@[k].0.prefix@ == q);
                        }
                    }
                    assert forall|q: Seq<char>| #[trigger] old(self).versions().contains_key(q) implies self.versions().contains_key(q) by {
                        let k = choose|k: int| 0 <= k < old(self).substores@.len() && old(self).substores@[k].0.prefix@ == q;
                        assert(n[k].0.prefix@ == q);
                    }
                    assert(self.versions().contains_key(p)) by {
                        assert(n[last].0.prefix@ == p);
                    }
                    assert(self.versions() =~= old(self).versions().insert(p, version));
                }
            },
        }
    }

    /// The latest recorded version of `substore`, if any.
    pub fn get_version(&self, substore: &Arc<SubstoreConfig>) -> (r: Option<jmt::Version>)
        requires
            self.wf(),
        ensures
            r == (if self.versions().contains_key(substore.prefix@) {
                Some(self.versions()[substore.prefix@])
            } else {
                None::<u64>
            }),
    {
        match self.position(&substore.prefix) {
            Some(i) => {
                assert(self.versions().contains_key(substore.prefix@));
                Some(self.substores[i].1)
            },
            None => None,
        }
    }

    /// Routes `key` as the wrapped configuration does.
    pub fn route_key_str<'a>(&self, key: &'a str) -> (r: (&'a str, Arc<SubstoreConfig>))
        requires
            self.config.wf(),
        ensures
            (r.0.spec_bytes(), r.1) == self.config.spec_route(key.spec_bytes()),
    {
        self.config.route_key_str(key)
    }

    /// Routes `key` as the wrapped configuration does.
    pub fn route_key_bytes<'a>(&self, key: &'a [u8]) -> (r: (&'a [u8], Arc<SubstoreConfig>))
        requires
            self.config.wf(),
        ensures
            (r.0@, r.1) == self.config.spec_route(key@),
    {
        self.config.route_key_bytes(key)
    }
}

impl Default for MultistoreCache {
    fn default() -> (r: Self)
        ensures
            r.wf(),
            r.config.wf(),
            r.config.substores@.len() == 0,
            r.versions() == Map::<Seq<char>, u64>::empty(),
    {
        MultistoreCache::from_config(MultistoreConfig::default())
    }
}

} // verus!
