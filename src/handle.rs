//! Reads of byte ranges of one remote file through the shared chunk table.
use crate::chunk::{
    chunk_span, lemma_span_bounds, chunk_start, fetch_bounds, fetch_timeout_ms, span_first, span_last, timeout_for,
    CHUNK_SIZE, MAX_OFFSET,
};
use crate::error::StoreError;
use crate::table::{
    contents_after_put, lemma_put_wf, order_after_put, promote, table_wf, CacheKey, ChunkKey, ChunkStore,
};
use vstd::prelude::*;

verus! {

/// Whether every chunk `first..=last` of `url` is held.
pub open spec fn all_held(contents: Map<ChunkKey, Seq<u8>>, url: Seq<char>, first: int, last: int) -> bool {
    forall|c: int| first <= c <= last ==> #[trigger] contents.contains_key((url, c as u64))
}

/// The held chunks `first..=last` of `url`, concatenated in ascending order.
pub open spec fn assembled(contents: Map<ChunkKey, Seq<u8>>, url: Seq<char>, first: int, last: int) -> Seq<u8>
    decreases last - first + 1,
{
    if last < first {
        Seq::empty()
    } else {
        assembled(contents, url, first, last - 1) + contents[(url, last as u64)]
    }
}

/// The recency order after looking up chunks `first..=last` of `url` in turn.
pub open spec fn touched(order: Seq<ChunkKey>, url: Seq<char>, first: int, last: int) -> Seq<ChunkKey>
    decreases last - first + 1,
{
    if last < first {
        order
    } else {
        promote(touched(order, url, first, last - 1), (url, last as u64))
    }
}

/// Piece `j` of a fetched buffer: its `j`-th chunk-sized slice, cut short at the end.
pub open spec fn piece(data: Seq<u8>, j: int) -> Seq<u8> {
    let lo = j * (CHUNK_SIZE as int);
    let hi = (j + 1) * (CHUNK_SIZE as int);
    data.subrange(lo, if hi < data.len() { hi } else { data.len() as int })
}

/// Table model (entries, order) after storing pieces `0..n` of `data` as chunks
/// `first, first + 1, ...` of `url`, in that order.
pub open spec fn filled(
    contents: Map<ChunkKey, Seq<u8>>,
    order: Seq<ChunkKey>,
    cap: nat,
    url: Seq<char>,
    first: int,
    data: Seq<u8>,
    n: int,
) -> (Map<ChunkKey, Seq<u8>>, Seq<ChunkKey>)
    decreases n,
{
    if n <= 0 {
        (contents, order)
    } else {
        let prev = filled(contents, order, cap, url, first, data, n - 1);
        let k = (url, (first + n - 1) as u64);
        (
            contents_after_put(prev.0, prev.1, cap, k, piece(data, n - 1)),
            order_after_put(prev.0, prev.1, cap, k),
        )
    }
}

/// One range request to the origin, for the whole chunks `first_chunk..=last_chunk`.
#[derive(Clone, Copy, Debug, PartialEq, Eq, Structural)]
pub struct FetchRequest {
    pub first_chunk: u64,
    pub last_chunk: u64,
    /// First byte asked for.
    pub from: u64,
    /// One past the last byte asked for.
    pub to: u64,
    pub timeout_ms: u64,
}

/// The request that serves a read of `[start, end)`.
pub open spec fn request_for(start: int, end: int, req: FetchRequest) -> bool {
    &&& req.first_chunk == span_first(start)
    &&& req.last_chunk == span_last(start, end)
    &&& req.from == chunk_start(span_first(start))
    &&& req.to == chunk_start(span_last(start, end) + 1)
    &&& req.timeout_ms == timeout_for(end - start)
}

/// Whether the origin's answer to a range request is usable: partial content that
/// reaches at least `need` bytes.
pub open spec fn accepted(response: Option<(u16, Vec<u8>)>, need: int) -> bool {
    match response {
        Some((status, data)) => status == 206 && data@.len() >= need,
        None => false,
    }
}

/// The body of a response.
pub open spec fn body_of(response: Option<(u16, Vec<u8>)>) -> Seq<u8> {
    match response {
        Some((_, data)) => data@,
        None => Seq::empty(),
    }
}

/// Outcome of consulting the table for a read.
pub enum ReadPlan {
    /// Every chunk was held: the requested bytes.
    Cached(Vec<u8>),
    /// Some chunk was missing: the one request that fetches them all.
    Fetch(FetchRequest),
}

/// Copies `v[from..to]`.
fn copy_range(v: &Vec<u8>, from: usize, to: usize) -> (r: Vec<u8>)
    requires
        from <= to <= v.len(),
    ensures
        r@ == v@.subrange(from as int, to as int),
{
    let mut r: Vec<u8> = Vec::new();
    let mut i: usize = from;
    while i < to
        invariant
            from <= i <= to <= v.len(),
            r@ == v@.subrange(from as int, i as int),
        decreases to - i,
    {
        r.push(v[i]);
        i = i + 1;
    }
    r
}

/// `x` as an index, given that it does not exceed one.
fn as_index(x: u64, bound: usize) -> (r: usize)
    requires
        x <= bound,
    ensures
        r == x,
{
    x as usize
}

fn make_request(start: u64, end: u64) -> (r: FetchRequest)
    requires
        start <= end <= MAX_OFFSET,
    ensures
        request_for(start as int, end as int, r),
{
    let (first, last) = chunk_span(start, end);
    let (from, to) = fetch_bounds(first, last);
    FetchRequest { first_chunk: first, last_chunk: last, from, to, timeout_ms: fetch_timeout_ms(start, end) }
}

/// A handle on one remote file, named by its full URL.
#[derive(Clone, Debug)]
pub struct HttpFileHandle {
    url: String,
}

impl View for HttpFileHandle {
    /// The file's URL.
    type V = Seq<char>;

    closed spec fn view(&self) -> Seq<char> {
        self.url@
    }
}

impl HttpFileHandle {
    pub fn new(url: String) -> (r: HttpFileHandle)
        ensures
            r@ == url@,
    {
        HttpFileHandle { url }
    }

    pub fn url(&self) -> (r: &String)
        ensures
            r@ == self@,
    {
        &self.url
    }

    /// Consults the table for the bytes `[start, end)`. When every chunk of the span is
    /// held (and they cover the range) the bytes come from the table, with each chunk
    /// looked up in ascending order; otherwise the table is not read and the request
    /// that fetches the whole span is returned.
    pub fn plan_read(&self, store: &mut ChunkStore, start: u64, end: u64) -> (r: ReadPlan)
        requires
            old(store).wf(),
            start <= end <= MAX_OFFSET,
        ensures
            final(store).wf(),
            final(store).contents() == old(store).contents(),
            final(store).capacity() == old(store).capacity(),
            ({
                let first = span_first(start as int);
                let last = span_last(start as int, end as int);
                let base = chunk_start(first);
                let held = all_held(old(store).contents(), self@, first, last);
                let bytes = assembled(old(store).contents(), self@, first, last);
                &&& held ==> final(store).order() == touched(old(store).order(), self@, first, last)
                &&& !held ==> final(store).order() == old(store).order()
                &&& match r {
                    ReadPlan::Cached(b) => held && bytes.len() >= end - base && b@ == bytes.subrange(
                        start - base,
                        end - base,
                    ),
                    ReadPlan::Fetch(req) => !(held && bytes.len() >= end - base) && request_for(
                        start as int,
                        end as int,
                        req,
                    ),
                }
            }),
    {
        let (first, last) = chunk_span(start, end);
        let ghost url = self.url@;
        let mut c: u64 = first;
        while c <= last
            invariant
                first <= c <= last + 1,
                last < MAX_OFFSET,
                all_held(store.contents(), url, first as int, c - 1),
                *store == *old(store),
                store.wf(),
                url == self@,
                start <= end <= MAX_OFFSET,
                first == span_first(start as int),
                last == span_last(start as int, end as int),
            decreases last + 1 - c,
        {
            let key = CacheKey::new(self.url.clone(), c);
            if !store.contains(&key) {
                proof {
                    assert(!store.contents().contains_key((url, (c as int) as u64)));
                }
                return ReadPlan::Fetch(make_request(start, end));
            }
            c = c + 1;
        }
        let mut bytes: Vec<u8> = Vec::new();
        let mut c: u64 = first;
        while c <= last
            invariant
                first <= c <= last + 1,
                last < MAX_OFFSET,
                all_held(old(store).contents(), url, first as int, last as int),
                store.wf(),
                store.contents() == old(store).contents(),
                store.capacity() == old(store).capacity(),
                store.order() == touched(old(store).order(), url, first as int, c - 1),
                bytes@ == assembled(old(store).contents(), url, first as int, c - 1),
                url == self@,
                start <= end <= MAX_OFFSET,
                first == span_first(start as int),
                last == span_last(start as int, end as int),
            decreases last + 1 - c,
        {
            let key = CacheKey::new(self.url.clone(), c);
            assert(old(store).contents().contains_key((url, c as u64)));
            let ghost before = store.order();
            let ghost before_bytes = bytes@;
            let chunk = store.get(&key);
            match chunk {
                Some(v) => {
                    let mut v = v;
                    bytes.append(&mut v);
                },
                None => {},
            }
            proof {
                assert(touched(old(store).order(), url, first as int, c as int) == promote(
                    touched(old(store).order(), url, first as int, c - 1),
                    (url, c as u64),
                ));
                assert(assembled(old(store).contents(), url, first as int, c as int) == assembled(
                    old(store).contents(),
                    url,
                    first as int,
                    c - 1,
                ) + old(store).contents()[(url, c as u64)]);
            }
            c = c + 1;
        }
        let base = first * CHUNK_SIZE;
        if (bytes.len() as u64) < end - base {
            return ReadPlan::Fetch(make_request(start, end));
        }
        ReadPlan::Cached(copy_range(&bytes, as_index(start - base, bytes.len()), as_index(end - base, bytes.len())))
    }

    /// Completes a read of `[start, end)` from the origin's answer to the request that
    /// `plan_read` returned (`None` when the transport failed). A usable answer is cut
    /// into chunks that are stored in ascending order, and the requested bytes are
    /// returned; anything else fails with `FetchFailed` and leaves the table alone.
    pub fn finish_read(
        &self,
        store: &mut ChunkStore,
        start: u64,
        end: u64,
        response: Option<(u16, Vec<u8>)>,
    ) -> (r: Result<Vec<u8>, StoreError>)
        requires
            old(store).wf(),
            start <= end <= MAX_OFFSET,
        ensures
            final(store).wf(),
            final(store).capacity() == old(store).capacity(),
            ({
                let first = span_first(start as int);
                let last = span_last(start as int, end as int);
                let base = chunk_start(first);
                let data = body_of(response);
                match r {
                    Ok(b) => {
                        &&& accepted(response, end - base)
                        &&& b@ == data.subrange(start - base, end - base)
                        &&& (final(store).contents(), final(store).order()) == filled(
                            old(store).contents(),
                            old(store).order(),
                            old(store).capacity(),
                            self@,
                            first,
                            data,
                            last - first + 1,
                        )
                    },
                    Err(e) => {
                        &&& !accepted(response, end - base)
                        &&& e == StoreError::FetchFailed
                        &&& *final(store) == *old(store)
                    },
                }
            }),
    {
        let (first, last) = chunk_span(start, end);
        let base = first * CHUNK_SIZE;
        let (status, data) = match response {
            Some(answer) => answer,
            None => {
                return Err(StoreError::FetchFailed);
            },
        };
        if status != 206 || (data.len() as u64) < end - base {
            return Err(StoreError::FetchFailed);
        }
        let ghost url = self@;
        let len = data.len() as u64;
        let count = last - first + 1;
        let mut j: u64 = 0;
        while j < count
            invariant
                0 <= j <= count,
                count == last - first + 1,
                first == span_first(start as int),
                last == span_last(start as int, end as int),
                base == chunk_start(first as int),
                start <= end <= MAX_OFFSET,
                len == data@.len(),
                len >= end - base,
                end > start ==> chunk_start(last as int) < end,
                end == start ==> last == first,
                url == self@,
                store.wf(),
                store.capacity() == old(store).capacity(),
                (store.contents(), store.order()) == filled(
                    old(store).contents(),
                    old(store).order(),
                    old(store).capacity(),
                    url,
                    first as int,
                    data@,
                    j as int,
                ),
            decreases count - j,
        {
            proof {
                vstd::arithmetic::mul::lemma_mul_inequality(j as int, (last - first) as int, CHUNK_SIZE as int);
                vstd::arithmetic::mul::lemma_mul_is_distributive_sub_other_way(
                    CHUNK_SIZE as int,
                    last as int,
                    first as int,
                );
            }
            let lo = j * CHUNK_SIZE;
            let hi = if len - lo > CHUNK_SIZE {
                lo + CHUNK_SIZE
            } else {
                len
            };
            proof {
                vstd::arithmetic::mul::lemma_mul_is_distributive_add_other_way(CHUNK_SIZE as int, j as int, 1);
            }
            assert(lo <= hi <= len);
            let part = copy_range(&data, as_index(lo, data.len()), as_index(hi, data.len()));
            assert(part@ == piece(data@, j as int));
            let key = CacheKey::new(self.url.clone(), first + j);
            let ghost prev = (store.contents(), store.order());
            store.put(&key, part);
            proof {
                let next = filled(
                    old(store).contents(),
                    old(store).order(),
                    old(store).capacity(),
                    url,
                    first as int,
                    data@,
                    j + 1,
                );
                assert(prev == filled(
                    old(store).contents(),
                    old(store).order(),
                    old(store).capacity(),
                    url,
                    first as int,
                    data@,
                    (j + 1) - 1,
                ));
                assert(key@ == (url, (first + (j + 1) - 1) as u64));
                assert(next.0 == contents_after_put(prev.0, prev.1, old(store).capacity(), key@, part@));
                assert(next.1 == order_after_put(prev.0, prev.1, old(store).capacity(), key@));
            }
            j = j + 1;
        }
        Ok(copy_range(&data, as_index(start - base, data.len()), as_index(end - base, data.len())))
    }
}

/// The bytes `[from, to)` of `file`, cut short at its end: what the origin sends for
/// a range request.
pub open spec fn origin_range(file: Seq<u8>, from: int, to: int) -> Seq<u8> {
    let len = file.len() as int;
    file.subrange(if from < len { from } else { len }, if to < len { to } else { len })
}

/// The bytes of chunk `c` of `file`.
pub open spec fn chunk_bytes(file: Seq<u8>, c: int) -> Seq<u8> {
    origin_range(file, chunk_start(c), chunk_start(c + 1))
}

/// Every held chunk of `url` holds that chunk of `file`.
pub open spec fn faithful(contents: Map<ChunkKey, Seq<u8>>, url: Seq<char>, file: Seq<u8>) -> bool {
    forall|c: u64| #[trigger] contents.contains_key((url, c)) ==> contents[(url, c)] == chunk_bytes(file, c as int)
}

/// Held chunks of a faithful table, concatenated, are the file's bytes over their span.
pub proof fn lemma_assembled_is_origin(
    contents: Map<ChunkKey, Seq<u8>>,
    url: Seq<char>,
    file: Seq<u8>,
    first: int,
    last: int,
)
    requires
        0 <= first <= last + 1,
        last < MAX_OFFSET,
        faithful(contents, url, file),
        all_held(contents, url, first, last),
    ensures
        assembled(contents, url, first, last) == origin_range(file, chunk_start(first), chunk_start(last + 1)),
    decreases last - first + 1,
{
    if last >= first {
        lemma_assembled_is_origin(contents, url, file, first, last - 1);
        assert(contents.contains_key((url, last as u64)));
        assert(assembled(contents, url, first, last) =~= origin_range(
            file,
            chunk_start(first),
            chunk_start(last + 1),
        ));
    } else {
        assert(origin_range(file, chunk_start(first), chunk_start(last + 1)) =~= Seq::<u8>::empty());
    }
}

/// A read served by a faithful table returns exactly the file's bytes `[start, end)`.
pub proof fn lemma_cached_read_exact(
    contents: Map<ChunkKey, Seq<u8>>,
    url: Seq<char>,
    file: Seq<u8>,
    start: u64,
    end: u64,
)
    requires
        start <= end <= file.len(),
        end <= MAX_OFFSET,
        faithful(contents, url, file),
        all_held(contents, url, span_first(start as int), span_last(start as int, end as int)),
    ensures
        ({
            let first = span_first(start as int);
            let last = span_last(start as int, end as int);
            let base = chunk_start(first);
            let bytes = assembled(contents, url, first, last);
            &&& bytes.len() >= end - base
            &&& bytes.subrange(start - base, end - base) == file.subrange(start as int, end as int)
        }),
{
    let first = span_first(start as int);
    let last = span_last(start as int, end as int);
    lemma_span_bounds(start as int, end as int);
    lemma_assembled_is_origin(contents, url, file, first as int, last as int);
    let base = chunk_start(first as int);
    let bytes = assembled(contents, url, first as int, last as int);
    assert(bytes.subrange(start - base, end - base) =~= file.subrange(start as int, end as int));
}

/// A read completed from the origin's faithful answer returns exactly the file's bytes
/// `[start, end)`.
pub proof fn lemma_fetched_read_exact(file: Seq<u8>, start: u64, end: u64, data: Seq<u8>)
    requires
        start <= end <= file.len(),
        end <= MAX_OFFSET,
        data == origin_range(
            file,
            chunk_start(span_first(start as int)),
            chunk_start(span_last(start as int, end as int) + 1),
        ),
    ensures
        ({
            let base = chunk_start(span_first(start as int));
            &&& data.len() >= end - base
            &&& data.subrange(start - base, end - base) == file.subrange(start as int, end as int)
        }),
{
    let first = span_first(start as int);
    let last = span_last(start as int, end as int);
    lemma_span_bounds(start as int, end as int);
    let base = chunk_start(first as int);
    assert(data.subrange(start - base, end - base) =~= file.subrange(start as int, end as int));
}

/// Storing the origin's faithful answer keeps a faithful table faithful, and stores no
/// chunk outside the span that the read needed.
pub proof fn lemma_fill_faithful(
    contents: Map<ChunkKey, Seq<u8>>,
    order: Seq<ChunkKey>,
    cap: nat,
    url: Seq<char>,
    file: Seq<u8>,
    start: u64,
    end: u64,
    n: int,
)
    requires
        start <= end <= file.len(),
        end <= MAX_OFFSET,
        faithful(contents, url, file),
        0 <= n <= span_last(start as int, end as int) - span_first(start as int) + 1,
    ensures
        ({
            let first = span_first(start as int);
            let last = span_last(start as int, end as int);
            let data = origin_range(file, chunk_start(first), chunk_start(last + 1));
            let after = filled(contents, order, cap, url, first, data, n).0;
            &&& faithful(after, url, file)
            &&& forall|k: ChunkKey|
                #[trigger] after.contains_key(k) ==> contents.contains_key(k) || (k.0 == url
                    && first <= k.1 <= last)
        }),
    decreases n,
{
    let first = span_first(start as int);
    let last = span_last(start as int, end as int);
    lemma_span_bounds(start as int, end as int);
    let data = origin_range(file, chunk_start(first as int), chunk_start(last as int + 1));
    if n > 0 {
        lemma_fill_faithful(contents, order, cap, url, file, start, end, n - 1);
        let prev = filled(contents, order, cap, url, first as int, data, n - 1);
        let j = n - 1;
        let k = (url, (first + j) as u64);
        assert(piece(data, j) =~= chunk_bytes(file, first + j));
        let after = filled(contents, order, cap, url, first as int, data, n).0;
        assert(after == contents_after_put(prev.0, prev.1, cap, k, piece(data, j)));
        assert forall|c: u64| #[trigger] after.contains_key((url, c)) implies after[(url, c)] == chunk_bytes(
            file,
            c as int,
        ) by {
            if (url, c) != k {
                assert(prev.0.contains_key((url, c)));
            }
        }
    }
}

/// A chunk of the span that the table does not hold makes the read fetch, with one
/// request for the whole span.
pub proof fn lemma_missing_chunk_fetches(
    contents: Map<ChunkKey, Seq<u8>>,
    url: Seq<char>,
    start: u64,
    end: u64,
    c: u64,
)
    requires
        start <= end,
        span_first(start as int) <= c <= span_last(start as int, end as int),
        !contents.contains_key((url, c)),
    ensures
        !all_held(contents, url, span_first(start as int), span_last(start as int, end as int)),
{
    assert(!contents.contains_key((url, (c as int) as u64)));
}

/// Chunk `first + m` of `url` is among the last `n - m` keys of `o`.
spec fn kept_recent(o: Seq<ChunkKey>, url: Seq<char>, first: int, m: int, n: int) -> bool {
    exists|i: int| 0 <= i && o.len() - (n - m) <= i < o.len() && o[i] == (url, (first + m) as u64)
}

/// After storing `n` pieces, each stored chunk sits no further from the most recently
/// used end than the number of pieces stored after it.
proof fn lemma_fill_recent(
    contents: Map<ChunkKey, Seq<u8>>,
    order: Seq<ChunkKey>,
    cap: nat,
    url: Seq<char>,
    first: int,
    data: Seq<u8>,
    n: int,
)
    requires
        table_wf(contents, order, cap),
        0 <= n <= cap,
        0 <= first,
        first + n <= u64::MAX,
    ensures
        ({
            let f = filled(contents, order, cap, url, first, data, n);
            &&& table_wf(f.0, f.1, cap)
            &&& forall|m: int| 0 <= m < n ==> #[trigger] kept_recent(f.1, url, first, m, n)
        }),
    decreases n,
{
    if n > 0 {
        lemma_fill_recent(contents, order, cap, url, first, data, n - 1);
        let prev = filled(contents, order, cap, url, first, data, n - 1);
        let k = (url, (first + n - 1) as u64);
        lemma_put_wf(prev.0, prev.1, cap, k, piece(data, n - 1));
        let f = filled(contents, order, cap, url, first, data, n);
        let o = prev.1;
        assert(f.1 == order_after_put(prev.0, o, cap, k));
        assert forall|m: int| 0 <= m < n implies #[trigger] kept_recent(f.1, url, first, m, n) by {
            let km = (url, (first + m) as u64);
            if m == n - 1 {
                assert(f.1[f.1.len() - 1] == km);
            } else {
                assert(kept_recent(o, url, first, m, n - 1));
                let i = choose|i: int| 0 <= i && o.len() - (n - 1 - m) <= i < o.len() && o[i] == km;
                assert(km != k);
                if prev.0.contains_key(k) {
                    assert(o.contains(k));
                    let p = o.index_of(k);
                    assert(i != p);
                    o.remove(p).remove_ensures(p);
                    o.remove_ensures(p);
                    if i < p {
                        assert(f.1[i] == km);
                    } else {
                        assert(f.1[i - 1] == km);
                    }
                } else if o.len() == cap {
                    assert(f.1[i - 1] == km);
                } else {
                    assert(f.1[i] == km);
                }
            }
        }
    }
}

/// Once a read's answer from the origin is stored, and its span fits in the table,
/// every chunk of the span is held: the same read again is served by the table,
/// with no request, and returns the same bytes.
pub proof fn lemma_repeat_read_hits(
    contents: Map<ChunkKey, Seq<u8>>,
    order: Seq<ChunkKey>,
    cap: nat,
    url: Seq<char>,
    file: Seq<u8>,
    start: u64,
    end: u64,
)
    requires
        table_wf(contents, order, cap),
        faithful(contents, url, file),
        start <= end <= file.len(),
        end <= MAX_OFFSET,
        span_last(start as int, end as int) - span_first(start as int) + 1 <= cap,
    ensures
        ({
            let first = span_first(start as int);
            let last = span_last(start as int, end as int);
            let base = chunk_start(first);
            let data = origin_range(file, chunk_start(first), chunk_start(last + 1));
            let after = filled(contents, order, cap, url, first, data, last - first + 1).0;
            let bytes = assembled(after, url, first, last);
            &&& all_held(after, url, first, last)
            &&& bytes.len() >= end - base
            &&& bytes.subrange(start - base, end - base) == data.subrange(start - base, end - base)
        }),
{
    let first = span_first(start as int);
    let last = span_last(start as int, end as int);
    lemma_span_bounds(start as int, end as int);
    let n = last - first + 1;
    let data = origin_range(file, chunk_start(first), chunk_start(last + 1));
    lemma_fill_recent(contents, order, cap, url, first, data, n);
    lemma_fill_faithful(contents, order, cap, url, file, start, end, n);
    let f = filled(contents, order, cap, url, first, data, n);
    assert forall|c: int| first <= c <= last implies #[trigger] f.0.contains_key((url, c as u64)) by {
        let m = c - first;
        assert(kept_recent(f.1, url, first, m, n));
        let i = choose|i: int| 0 <= i && f.1.len() - (n - m) <= i < f.1.len() && f.1[i] == (url, (first + m) as u64);
        assert(f.1[i] == (url, c as u64));
        assert(f.1.contains((url, c as u64)));
    }
    lemma_cached_read_exact(f.0, url, file, start, end);
    lemma_fetched_read_exact(file, start, end, data);
}

} // verus!
