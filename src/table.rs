//! The bounded, least-recently-used chunk table shared by every file handle.
use lru::LruCache;
use std::collections::hash_map::RandomState;
use vstd::prelude::*;

verus! {

#[verifier::external_type_specification]
#[verifier::external_body]
#[verifier::reject_recursive_types(K)]
#[verifier::reject_recursive_types(V)]
#[verifier::reject_recursive_types(S)]
pub struct ExLruCache<K, V, S>(lru::LruCache<K, V, S>);

/// The outside table type, keyed by (file URL, chunk index).
pub type Table = LruCache<(String, u64), Vec<u8>, RandomState>;

/// A chunk's address in the model: the file's URL and the chunk index.
pub type ChunkKey = (Seq<char>, u64);

/// The entries that an LRU table holds, by key.
pub uninterp spec fn lru_contents(t: Table) -> Map<ChunkKey, Seq<u8>>;

/// The keys of an LRU table from least to most recently used.
pub uninterp spec fn lru_order(t: Table) -> Seq<ChunkKey>;

/// The number of entries an LRU table was built to hold.
pub uninterp spec fn lru_capacity(t: Table) -> nat;

/// `order` with `k` moved to the most recently used end.
pub open spec fn promote(order: Seq<ChunkKey>, k: ChunkKey) -> Seq<ChunkKey> {
    order.remove(order.index_of(k)).push(k)
}

/// Recency order after storing under `k`: a present key is promoted; otherwise
/// a full table first drops its least recently used key.
pub open spec fn order_after_put(
    contents: Map<ChunkKey, Seq<u8>>,
    order: Seq<ChunkKey>,
    cap: nat,
    k: ChunkKey,
) -> Seq<ChunkKey> {
    if contents.contains_key(k) {
        promote(order, k)
    } else if order.len() == cap {
        order.drop_first().push(k)
    } else {
        order.push(k)
    }
}

/// Entries after storing `v` under `k`, evicting the least recently used entry
/// when a new key meets a full table.
pub open spec fn contents_after_put(
    contents: Map<ChunkKey, Seq<u8>>,
    order: Seq<ChunkKey>,
    cap: nat,
    k: ChunkKey,
    v: Seq<u8>,
) -> Map<ChunkKey, Seq<u8>> {
    if !contents.contains_key(k) && order.len() == cap {
        contents.remove(order[0]).insert(k, v)
    } else {
        contents.insert(k, v)
    }
}

/// Consistency of a table's model: the order lists each held key once, and never
/// more keys than the capacity.
pub open spec fn table_wf(contents: Map<ChunkKey, Seq<u8>>, order: Seq<ChunkKey>, cap: nat) -> bool {
    &&& 0 < cap
    &&& order.len() <= cap
    &&& order.no_duplicates()
    &&& forall|k: ChunkKey| #[trigger] contents.contains_key(k) <==> order.contains(k)
}

/// Relies on lru::LruCache::with_hasher: an empty table bounded by `cap` entries.
#[verifier::external_body]
fn lru_new(cap: usize) -> (r: Table)
    requires
        cap > 0,
    ensures
        lru_contents(r).dom() == Set::<ChunkKey>::empty(),
        lru_order(r) == Seq::<ChunkKey>::empty(),
        lru_capacity(r) == cap,
{
    LruCache::with_hasher(std::num::NonZeroUsize::new(cap).unwrap(), RandomState::new())
}

/// Relies on lru::LruCache::contains: key lookup that leaves the recency order alone.
#[verifier::external_body]
fn lru_contains(t: &Table, k: &(String, u64)) -> (r: bool)
    ensures
        r == lru_contents(*t).contains_key((k.0@, k.1)),
{
    t.contains(k)
}

/// Relies on lru::LruCache::get: returns the held value and makes the key the most
/// recently used.
#[verifier::external_body]
fn lru_get(t: &mut Table, k: &(String, u64)) -> (r: Option<Vec<u8>>)
    ensures
        lru_contents(*final(t)) == lru_contents(*old(t)),
        lru_capacity(*final(t)) == lru_capacity(*old(t)),
        lru_contents(*old(t)).contains_key((k.0@, k.1)) ==> {
            &&& r matches Some(v)
            &&& v@ == lru_contents(*old(t))[(k.0@, k.1)]
            &&& lru_order(*final(t)) == promote(lru_order(*old(t)), (k.0@, k.1))
        },
        !lru_contents(*old(t)).contains_key((k.0@, k.1)) ==> {
            &&& r is None
            &&& lru_order(*final(t)) == lru_order(*old(t))
        },
{
    t.get(k).cloned()
}

/// Relies on lru::LruCache::put: stores the value as most recently used; a new key in
/// a full table replaces the least recently used entry.
#[verifier::external_body]
fn lru_put(t: &mut Table, k: (String, u64), v: Vec<u8>)
    ensures
        lru_contents(*final(t)) == contents_after_put(
            lru_contents(*old(t)),
            lru_order(*old(t)),
            lru_capacity(*old(t)),
            (k.0@, k.1),
            v@,
        ),
        lru_order(*final(t)) == order_after_put(
            lru_contents(*old(t)),
            lru_order(*old(t)),
            lru_capacity(*old(t)),
            (k.0@, k.1),
        ),
        lru_capacity(*final(t)) == lru_capacity(*old(t)),
{
    t.put(k, v);
}

/// Promoting a held key keeps the model consistent.
pub proof fn lemma_promote_wf(contents: Map<ChunkKey, Seq<u8>>, order: Seq<ChunkKey>, cap: nat, k: ChunkKey)
    requires
        table_wf(contents, order, cap),
        contents.contains_key(k),
    ensures
        table_wf(contents, promote(order, k), cap),
        promote(order, k).len() == order.len(),
{
    let i = order.index_of(k);
    assert(order.contains(k));
    let rest = order.remove(i);
    order.remove_ensures(i);
    let p = rest.push(k);
    assert forall|a: int, b: int| 0 <= a < b < p.len() implies p[a] != p[b] by {
        if b == p.len() - 1 {
            if a < i {
                assert(p[a] == order[a]);
            } else {
                assert(p[a] == order[a + 1]);
            }
        } else {
            let oa = if a < i { a } else { a + 1 };
            let ob = if b < i { b } else { b + 1 };
            assert(p[a] == order[oa] && p[b] == order[ob]);
        }
    }
    assert forall|x: ChunkKey| #[trigger] contents.contains_key(x) <==> p.contains(x) by {
        if contents.contains_key(x) {
            assert(order.contains(x));
            if x != k {
                let j = choose|j: int| 0 <= j < order.len() && order[j] == x;
                if j < i {
                    assert(p[j] == x);
                } else {
                    assert(j != i);
                    assert(p[j - 1] == x);
                }
            } else {
                assert(p[p.len() - 1] == x);
            }
        }
        if p.contains(x) {
            let j = choose|j: int| 0 <= j < p.len() && p[j] == x;
            if j == p.len() - 1 {
            } else if j < i {
                assert(order[j] == x);
            } else {
                assert(order[j + 1] == x);
            }
        }
    }
}

/// Storing a value keeps the model consistent.
pub proof fn lemma_put_wf(
    contents: Map<ChunkKey, Seq<u8>>,
    order: Seq<ChunkKey>,
    cap: nat,
    k: ChunkKey,
    v: Seq<u8>,
)
    requires
        table_wf(contents, order, cap),
    ensures
        table_wf(
            contents_after_put(contents, order, cap, k, v),
            order_after_put(contents, order, cap, k),
            cap,
        ),
{
    let c2 = contents_after_put(contents, order, cap, k, v);
    let o2 = order_after_put(contents, order, cap, k);
    if contents.contains_key(k) {
        lemma_promote_wf(contents, order, cap, k);
        assert forall|x: ChunkKey| #[trigger] c2.contains_key(x) <==> o2.contains(x) by {
            assert(c2.contains_key(x) <==> contents.contains_key(x));
        }
    } else if order.len() == cap {
        let d = order.drop_first();
        assert(!order.contains(k));
        assert forall|a: int, b: int| 0 <= a < b < o2.len() implies o2[a] != o2[b] by {
            if b == o2.len() - 1 {
                assert(o2[a] == order[a + 1]);
            } else {
                assert(o2[a] == order[a + 1] && o2[b] == order[b + 1]);
            }
        }
        assert forall|x: ChunkKey| #[trigger] c2.contains_key(x) <==> o2.contains(x) by {
            if c2.contains_key(x) && x != k {
                assert(contents.contains_key(x) && x != order[0]);
                let j = choose|j: int| 0 <= j < order.len() && order[j] == x;
                assert(j != 0);
                assert(o2[j - 1] == x);
            }
            if c2.contains_key(x) && x == k {
                assert(o2[o2.len() - 1] == x);
            }
            if o2.contains(x) {
                let j = choose|j: int| 0 <= j < o2.len() && o2[j] == x;
                if j < o2.len() - 1 {
                    assert(order[j + 1] == x);
                    assert(order.contains(x));
                    assert(x != order[0]);
                }
            }
        }
    } else {
        assert(!order.contains(k));
        assert forall|x: ChunkKey| #[trigger] c2.contains_key(x) <==> o2.contains(x) by {
            if c2.contains_key(x) && x != k {
                let j = choose|j: int| 0 <= j < order.len() && order[j] == x;
                assert(o2[j] == x);
            }
            if c2.contains_key(x) && x == k {
                assert(o2[o2.len() - 1] == x);
            }
            if o2.contains(x) {
                let j = choose|j: int| 0 <= j < o2.len() && o2[j] == x;
                if j < o2.len() - 1 {
                    assert(order[j] == x);
                }
            }
        }
    }
}

/// When a new key meets a full table, the least recently used key is evicted and the
/// new key is held; every other key stays.
pub proof fn lemma_lru_eviction(
    contents: Map<ChunkKey, Seq<u8>>,
    order: Seq<ChunkKey>,
    cap: nat,
    k: ChunkKey,
    v: Seq<u8>,
)
    requires
        table_wf(contents, order, cap),
        order.len() == cap,
        !contents.contains_key(k),
    ensures
        !contents_after_put(contents, order, cap, k, v).contains_key(order[0]),
        contents_after_put(contents, order, cap, k, v).contains_key(k),
        forall|x: ChunkKey|
            x != order[0] && #[trigger] contents.contains_key(x) ==> contents_after_put(
                contents,
                order,
                cap,
                k,
                v,
            ).contains_key(x),
        order_after_put(contents, order, cap, k).len() == cap,
{
    assert(contents.contains_key(order[0]));
}

/// Address of one cached chunk: the file's URL and the chunk's index in it.
#[derive(Clone, Debug)]
pub struct CacheKey {
    url: String,
    chunk: u64,
}

impl View for CacheKey {
    type V = ChunkKey;

    closed spec fn view(&self) -> ChunkKey {
        (self.url@, self.chunk)
    }
}

impl CacheKey {
    pub fn new(url: String, chunk: u64) -> (r: CacheKey)
        ensures
            r@ == (url@, chunk),
    {
        CacheKey { url, chunk }
    }

    pub fn url(&self) -> (r: &String)
        ensures
            r@ == self@.0,
    {
        &self.url
    }

    pub fn chunk(&self) -> (r: u64)
        ensures
            r == self@.1,
    {
        self.chunk
    }
}

/// Number of chunks the shared table holds by default.
pub const DEFAULT_CAPACITY: usize = 131072;

/// A bounded table of chunks with least-recently-used eviction, shared by all files.
pub struct ChunkStore {
    table: Table,
}

impl ChunkStore {
    /// The chunks held, by address.
    pub closed spec fn contents(&self) -> Map<ChunkKey, Seq<u8>> {
        lru_contents(self.table)
    }

    /// The held addresses from least to most recently used.
    pub closed spec fn order(&self) -> Seq<ChunkKey> {
        lru_order(self.table)
    }

    /// The most chunks the table holds at once.
    pub closed spec fn capacity(&self) -> nat {
        lru_capacity(self.table)
    }

    pub open spec fn wf(&self) -> bool {
        table_wf(self.contents(), self.order(), self.capacity())
    }

    /// An empty table that holds at most `capacity` chunks.
    pub fn new(capacity: usize) -> (r: ChunkStore)
        requires
            capacity > 0,
        ensures
            r.wf(),
            r.contents().dom() == Set::<ChunkKey>::empty(),
            r.order() == Seq::<ChunkKey>::empty(),
            r.capacity() == capacity,
    {
        ChunkStore { table: lru_new(capacity) }
    }

    /// An empty table of the default capacity.
    pub fn with_default_capacity() -> (r: ChunkStore)
        ensures
            r.wf(),
            r.contents().dom() == Set::<ChunkKey>::empty(),
            r.capacity() == DEFAULT_CAPACITY,
    {
        ChunkStore::new(DEFAULT_CAPACITY)
    }

    /// Whether the chunk at `key` is held; the recency order is left alone.
    pub fn contains(&self, key: &CacheKey) -> (r: bool)
        ensures
            r == self.contents().contains_key(key@),
    {
        let k = (key.url.clone(), key.chunk);
        lru_contains(&self.table, &k)
    }

    /// The chunk at `key`, if held; a hit makes it the most recently used.
    pub fn get(&mut self, key: &CacheKey) -> (r: Option<Vec<u8>>)
        requires
            old(self).wf(),
        ensures
            final(self).wf(),
            final(self).contents() == old(self).contents(),
            final(self).capacity() == old(self).capacity(),
            old(self).contents().contains_key(key@) ==> {
                &&& r matches Some(v)
                &&& v@ == old(self).contents()[key@]
                &&& final(self).order() == promote(old(self).order(), key@)
            },
            !old(self).contents().contains_key(key@) ==> {
                &&& r is None
                &&& final(self).order() == old(self).order()
            },
    {
        let k = (key.url.clone(), key.chunk);
        let r = lru_get(&mut self.table, &k);
        proof {
            if old(self).contents().contains_key(key@) {
                lemma_promote_wf(old(self).contents(), old(self).order(), old(self).capacity(), key@);
            }
        }
        r
    }

    /// Stores `chunk` at `key` as the most recently used entry, evicting the least
    /// recently used entry when a new key meets a full table.
    pub fn put(&mut self, key: &CacheKey, chunk: Vec<u8>)
        requires
            old(self).wf(),
        ensures
            final(self).wf(),
            final(self).contents() == contents_after_put(
                old(self).contents(),
                old(self).order(),
                old(self).capacity(),
                key@,
                chunk@,
            ),
            final(self).order() == order_after_put(
                old(self).contents(),
                old(self).order(),
                old(self).capacity(),
                key@,
            ),
            final(self).capacity() == old(self).capacity(),
    {
        let k = (key.url.clone(), key.chunk);
        proof {
            lemma_put_wf(old(self).contents(), old(self).order(), old(self).capacity(), key@, chunk@);
        }
        lru_put(&mut self.table, k, chunk);
    }
}

} // verus!
