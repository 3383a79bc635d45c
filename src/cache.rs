//! Bounded caches of models and graphs, keyed by model id and version.
use vstd::prelude::*;
use std::sync::Arc;
use crate::cubs_model::ModelData;
use crate::decimal::{decimal, digits, lemma_digits_are_digits, lemma_digits_injective};
use crate::element_connector::ElementConnectorGraph;
use crate::pointer::{digits_number, parse_digits};

verus! {

/// The default number of entries a cache holds.
pub const CACHE_SIZE: usize = 2;

/// The number a capacity setting spells: decimal digits, optionally after a
/// `+`, whose value fits in `usize`.
pub open spec fn setting_number(s: Seq<char>) -> Option<nat> {
    if s.len() > 0 && s[0] == '+' {
        digits_number(s.subrange(1, s.len() as int))
    } else {
        digits_number(s)
    }
}

/// The cache capacity a setting asks for; the default when there is no
/// setting or it is not such a number.
pub fn capacity_from_setting(setting: Option<&str>) -> (r: usize)
    ensures
        r == match setting {
            Some(s) => match setting_number(s@) {
                Some(n) => n,
                None => CACHE_SIZE as nat,
            },
            None => CACHE_SIZE as nat,
        },
{
    match setting {
        None => CACHE_SIZE,
        Some(s) => {
            let n = s.unicode_len();
            let digits = if n > 0 && s.get_char(0) == '+' {
                s.substring_char(1, n)
            } else {
                s
            };
            match parse_digits(digits) {
                Some(v) => v,
                None => CACHE_SIZE,
            }
        },
    }
}

/// The entries of a bounded cache, shared by every handle on it; they live in
/// a `quick_cache::sync::Cache`.
#[verifier::external_body]
#[verifier::reject_recursive_types(T)]
pub struct SharedStore<T> {
    data: Arc<quick_cache::sync::Cache<String, T>>,
}

/// Relies on quick_cache::sync::Cache::new: an empty cache that holds about
/// `capacity` entries.
#[verifier::external_body]
fn new_store<T: Clone>(capacity: usize) -> SharedStore<T> {
    SharedStore { data: Arc::new(quick_cache::sync::Cache::new(capacity)) }
}

/// Relies on Arc::clone: a second handle on the same entries.
#[verifier::external_body]
fn share_store<T: Clone>(store: &SharedStore<T>) -> SharedStore<T> {
    SharedStore { data: Arc::clone(&store.data) }
}

/// Relies on quick_cache::sync::Cache::get: a copy of what is stored under
/// `key`, if the entry is still there. Other holders of the cache may insert
/// or evict at any time, so nothing more is promised.
#[verifier::external_body]
fn store_get<T: Clone>(store: &SharedStore<T>, key: &String) -> Option<T> {
    store.data.get(key.as_str())
}

/// Relies on quick_cache::sync::Cache::insert: stores `value` under `key`,
/// possibly evicting other entries.
#[verifier::external_body]
fn store_insert<T: Clone>(store: &SharedStore<T>, key: String, value: T) {
    store.data.insert(key, value)
}

/// The cache key of version `version` of model `model_id`.
pub open spec fn cache_key(model_id: Seq<char>, version: nat) -> Seq<char> {
    model_id + "-"@ + digits(version)
}

/// The cache key of version `version` of model `model_id`: the id, a dash and
/// the version in decimal.
pub fn make_key(model_id: &str, version: u32) -> (r: String)
    ensures
        r@ == cache_key(model_id@, version as nat),
{
    let mut key = model_id.to_owned();
    key.append("-");
    let v = decimal(version);
    key.append(v.as_str());
    proof {
        reveal_strlit("-");
    }
    key
}

/// Two cache keys are equal only for the same model id and the same version:
/// no version of a model is ever served for another.
pub proof fn lemma_cache_key_injective(m1: Seq<char>, v1: nat, m2: Seq<char>, v2: nat)
    requires
        cache_key(m1, v1) == cache_key(m2, v2),
    ensures
        m1 == m2,
        v1 == v2,
{
    let k = cache_key(m1, v1);
    let (d1, d2) = (digits(v1), digits(v2));
    lemma_digits_are_digits(v1);
    lemma_digits_are_digits(v2);
    reveal_strlit("-");
    let n = k.len();
    if d1.len() < d2.len() {
        let p = n - d1.len() - 1;
        assert(k[p] == '-');
        assert(cache_key(m2, v2)[p] == d2[p - (n - d2.len())]);
        assert(false);
    } else if d2.len() < d1.len() {
        let p = n - d2.len() - 1;
        assert(cache_key(m2, v2)[p] == '-');
        assert(k[p] == d1[p - (n - d1.len())]);
        assert(false);
    } else {
        assert(d1 =~= k.subrange(n - d1.len(), n as int));
        assert(d2 =~= cache_key(m2, v2).subrange(n - d2.len(), n as int));
        lemma_digits_injective(v1, v2);
        assert(m1 =~= k.subrange(0, m1.len() as int));
        assert(m2 =~= cache_key(m2, v2).subrange(0, m2.len() as int));
    }
}

/// A bounded cache keyed by model id and version, and the number of entries
/// it was made to hold. Clones share the entries.
#[verifier::reject_recursive_types(T)]
pub struct QuickCache<T> {
    pub capacity: usize,
    pub store: SharedStore<T>,
}

impl<T: Clone> QuickCache<T> {
    /// An empty cache of about `capacity` entries.
    pub fn new(capacity: usize) -> (r: Self)
        ensures
            r.capacity == capacity,
    {
        QuickCache { capacity, store: new_store(capacity) }
    }

    /// A second handle on the same cache.
    pub fn share(&self) -> (r: Self)
        ensures
            r.capacity == self.capacity,
    {
        QuickCache { capacity: self.capacity, store: share_store(&self.store) }
    }

    /// A copy of what is cached for version `version` of model `key`, if it is
    /// still there.
    pub fn get(&self, key: &str, version: u32) -> Option<T> {
        let k = make_key(key, version);
        store_get(&self.store, &k)
    }

    /// Caches a copy of `value` for version `version` of model `key`.
    pub fn insert(&self, key: &str, version: u32, value: &T) {
        let k = make_key(key, version);
        store_insert(&self.store, k, value.clone());
    }
}

impl<T: Clone> Clone for QuickCache<T> {
    fn clone(&self) -> Self {
        self.share()
    }
}

/// What the request handlers share: the model cache and the graph cache.
pub struct AppState {
    pub model_cache: QuickCache<ModelData>,
    pub graph_cache: QuickCache<ElementConnectorGraph>,
}

impl AppState {
    /// A model cache and a graph cache, each new and made for `capacity`
    /// entries.
    pub fn new(capacity: usize) -> (r: Self)
        ensures
            r.model_cache.capacity == capacity,
            r.graph_cache.capacity == capacity,
    {
        AppState { model_cache: QuickCache::new(capacity), graph_cache: QuickCache::new(capacity) }
    }

    pub fn get_model_cache(&self) -> (r: QuickCache<ModelData>)
        ensures
            r.capacity == self.model_cache.capacity,
    {
        self.model_cache.share()
    }

    pub fn get_graph_cache(&self) -> (r: QuickCache<ElementConnectorGraph>)
        ensures
            r.capacity == self.graph_cache.capacity,
    {
        self.graph_cache.share()
    }
}

} // verus!
