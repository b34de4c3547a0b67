//! The response cache: which requests may be answered from it, which responses go into it, and
//! which response leaves it when it is full.
use vstd::prelude::*;
use vstd::slice::slice_to_vec;
use vstd::string::*;
use vstd::utf8::*;

use crate::headers::{
    flattened, has_field, header_name, law_rebuilt_from_pairs, lemma_flattened, list_view, place_of,
    well_formed, HeaderSeq, Headers,
};
use crate::message::Version;
use crate::request::{Request, RequestView};
use crate::response::{response_well_formed, Response, ResponseView};
use crate::text::{
    contains, contains_bytes, is_token, lower_bytes, lower_char, text_equal, to_lower,
};

verus! {

/// A response as the cache keeps it.
pub struct CachedResponse {
    pub status: u16,
    pub version: Version,
    pub headers: Headers,
    pub body: Vec<u8>,
}

impl View for CachedResponse {
    type V = ResponseView;

    open spec fn view(&self) -> ResponseView {
        ResponseView {
            status: self.status,
            version: self.version,
            headers: self.headers@,
            body: self.body@,
        }
    }
}

/// A response with the given parts, its header fields added one after the other.
fn rebuild_response(
    status: u16,
    version: Version,
    headers: &Headers,
    body: &Vec<u8>,
) -> (response: Response)
    requires
        well_formed(headers@),
    ensures
        response@ == (ResponseView { status, version, headers: headers@, body: body@ }),
{
    let list = headers.list();
    proof {
        law_rebuilt_from_pairs(headers@);
    }
    let fields = Headers::from_list(&list);
    let bytes = slice_to_vec(body.as_slice());
    Response { status, version, headers: fields, body: bytes }
}

/// A copy of a response.
pub fn clone_response(response: &Response) -> (copy: Response)
    requires
        response_well_formed(response@),
    ensures
        copy@ == response@,
{
    rebuild_response(response.status, response.version, &response.headers, &response.body)
}

/// The value holds a directive, in whatever case it is spelled.
pub open spec fn holds_directive(value: Seq<u8>, directive: Seq<char>) -> bool {
    contains_bytes(lower_bytes(value), encode_utf8(directive))
}

/// Some `Cache-Control` value holds a directive.
pub open spec fn has_directive(headers: HeaderSeq, directive: Seq<char>) -> bool {
    exists|i: int, k: int|
        0 <= i < headers.len() && headers[i].0 == "cache-control"@ && 0 <= k < headers[i].1.len()
            && holds_directive(#[trigger] headers[i].1[k], directive)
}

/// The header fields forbid to cache the message.
pub open spec fn forbids_caching(headers: HeaderSeq) -> bool {
    ||| has_directive(headers, "no-cache"@)
    ||| has_directive(headers, "no-store"@)
    ||| has_directive(headers, "private"@)
}

/// The request may be answered from the cache: a `GET` without a body, without credentials, that
/// does not forbid it.
pub open spec fn request_is_cacheable(request: RequestView) -> bool {
    &&& request.method == "GET"@
    &&& request.body.len() == 0
    &&& !has_field(request.headers, "authorization"@)
    &&& !has_field(request.headers, "cookie"@)
    &&& !forbids_caching(request.headers)
}

/// The key under which the answer to a request is cached: its URI.
pub open spec fn cache_key(request: RequestView) -> Option<Seq<char>> {
    if request_is_cacheable(request) {
        Some(request.uri)
    } else {
        None
    }
}

/// The response may go into the cache: a plain success that sets no cookie and does not forbid it.
pub open spec fn is_cacheable(response: ResponseView) -> bool {
    &&& response.status == 200
    &&& !has_field(response.headers, "set-cookie"@)
    &&& !forbids_caching(response.headers)
}

/// What an optional text holds.
pub open spec fn key_view(key: Option<String>) -> Option<Seq<char>> {
    match key {
        Some(text) => Some(text@),
        None => None,
    }
}

/// The pair is a `Cache-Control` value that holds a directive.
spec fn pair_has_directive(pair: (Seq<char>, Seq<u8>), directive: Seq<char>) -> bool {
    pair.0 == "cache-control"@ && holds_directive(pair.1, directive)
}

/// The pair forbids to cache the message.
spec fn pair_forbids_caching(pair: (Seq<char>, Seq<u8>)) -> bool {
    ||| pair_has_directive(pair, "no-cache"@)
    ||| pair_has_directive(pair, "no-store"@)
    ||| pair_has_directive(pair, "private"@)
}

/// A directive in one of the pairs stands in the header fields.
proof fn lemma_directive_from_pair(headers: HeaderSeq, directive: Seq<char>, j: int)
    requires
        0 <= j < flattened(headers).len(),
        pair_has_directive(flattened(headers)[j], directive),
    ensures
        has_directive(headers, directive),
{
    let pair = flattened(headers)[j];
    assert(flattened(headers).contains(pair));
    lemma_flattened(headers, pair);
    let (i, k) = choose|i: int, k: int|
        0 <= i < headers.len() && 0 <= k < headers[i].1.len() && pair == (
            headers[i].0,
            #[trigger] headers[i].1[k],
        );
    assert(holds_directive(headers[i].1[k], directive));
}

/// A directive in the header fields stands in one of the pairs.
proof fn lemma_directive_in_pair(headers: HeaderSeq, directive: Seq<char>)
    requires
        has_directive(headers, directive),
    ensures
        exists|j: int|
            0 <= j < flattened(headers).len() && pair_has_directive(
                #[trigger] flattened(headers)[j],
                directive,
            ),
{
    let (i, k) = choose|i: int, k: int|
        0 <= i < headers.len() && headers[i].0 == "cache-control"@ && 0 <= k < headers[i].1.len()
            && holds_directive(#[trigger] headers[i].1[k], directive);
    let pair = (headers[i].0, headers[i].1[k]);
    lemma_flattened(headers, pair);
    let j = flattened(headers).index_of(pair);
    assert(pair_has_directive(flattened(headers)[j], directive));
}

/// Whether a `Cache-Control` value forbids to cache the message.
fn value_forbids_caching(value: &[u8]) -> (forbids: bool)
    ensures
        forbids == (holds_directive(value@, "no-cache"@) || holds_directive(value@, "no-store"@)
            || holds_directive(value@, "private"@)),
{
    let lower = to_lower(value);
    contains(lower.as_slice(), "no-cache".as_bytes()) || contains(
        lower.as_slice(),
        "no-store".as_bytes(),
    ) || contains(lower.as_slice(), "private".as_bytes())
}

/// Whether the header fields forbid to cache the message.
fn header_forbids_caching(headers: &Headers) -> (forbids: bool)
    ensures
        forbids == forbids_caching(headers@),
{
    let list = headers.list();
    let ghost pairs = flattened(headers@);
    let mut i: usize = 0;
    while i < list.len()
        invariant
            i <= list@.len(),
            pairs == list_view(list@),
            pairs == flattened(headers@),
            forall|j: int| 0 <= j < i ==> !pair_forbids_caching(#[trigger] pairs[j]),
        decreases list@.len() - i,
    {
        assert(pairs[i as int] == (list@[i as int].0@, list@[i as int].1@));
        if text_equal(list[i].0.as_str(), "cache-control") && value_forbids_caching(
            list[i].1.as_slice(),
        ) {
            proof {
                if pair_has_directive(pairs[i as int], "no-cache"@) {
                    lemma_directive_from_pair(headers@, "no-cache"@, i as int);
                } else if pair_has_directive(pairs[i as int], "no-store"@) {
                    lemma_directive_from_pair(headers@, "no-store"@, i as int);
                } else {
                    lemma_directive_from_pair(headers@, "private"@, i as int);
                }
            }
            return true;
        }
        i = i + 1;
    }
    proof {
        if has_directive(headers@, "no-cache"@) {
            lemma_directive_in_pair(headers@, "no-cache"@);
        }
        if has_directive(headers@, "no-store"@) {
            lemma_directive_in_pair(headers@, "no-store"@);
        }
        if has_directive(headers@, "private"@) {
            lemma_directive_in_pair(headers@, "private"@);
        }
    }
    false
}

/// The key under which the answer to a request is cached, if it may be cached.
pub fn cache_key_for_request(request: &Request) -> (key: Option<String>)
    ensures
        key_view(key) == cache_key(request@),
{
    if !text_equal(request.method.as_str(), "GET") || !request.body.is_empty() {
        return None;
    }
    if request.headers.contains_key("authorization") || request.headers.contains_key("cookie") {
        return None;
    }
    if header_forbids_caching(&request.headers) {
        return None;
    }
    Some(request.uri.as_str().to_owned())
}

/// Whether a response may go into the cache.
pub fn response_is_cacheable(response: &Response) -> (cacheable: bool)
    ensures
        cacheable == is_cacheable(response@),
{
    if response.status != 200 {
        return false;
    }
    if response.headers.contains_key("set-cookie") {
        return false;
    }
    !header_forbids_caching(&response.headers)
}

/// A response as the cache keeps it.
pub fn response_to_cached(response: &Response) -> (cached: CachedResponse)
    ensures
        cached@ == response@,
{
    CachedResponse {
        status: response.status,
        version: response.version,
        headers: response.headers.copy(),
        body: slice_to_vec(response.body.as_slice()),
    }
}

/// The response that the cache kept.
pub fn cached_to_response(cached: &CachedResponse) -> (response: Response)
    requires
        well_formed(cached@.headers),
    ensures
        response@ == cached@,
{
    rebuild_response(cached.status, cached.version, &cached.headers, &cached.body)
}

/// Keys with their responses, the most recently used first.
pub type CacheSeq = Seq<(Seq<char>, ResponseView)>;

/// There is a response under the key.
pub open spec fn has_key(entries: CacheSeq, key: Seq<char>) -> bool {
    exists|i: int| 0 <= i < entries.len() && (#[trigger] entries[i]).0 == key
}

/// The place of a key.
pub open spec fn key_place(entries: CacheSeq, key: Seq<char>) -> int {
    choose|i: int| 0 <= i < entries.len() && (#[trigger] entries[i]).0 == key
}

/// The response under a key.
pub open spec fn cached_under(entries: CacheSeq, key: Seq<char>) -> Option<ResponseView> {
    if has_key(entries, key) {
        Some(entries[key_place(entries, key)].1)
    } else {
        None
    }
}

/// The entries after a key was looked up: the key, if it is there, comes first.
pub open spec fn looked_up(entries: CacheSeq, key: Seq<char>) -> CacheSeq {
    if has_key(entries, key) {
        let i = key_place(entries, key);
        seq![entries[i]] + entries.remove(i)
    } else {
        entries
    }
}

/// The entries after a response was put under a key: it comes first, and takes the place of the
/// response under the same key, or else of the last one where the cache is full.
pub open spec fn stored(
    entries: CacheSeq,
    capacity: nat,
    key: Seq<char>,
    response: ResponseView,
) -> CacheSeq {
    if has_key(entries, key) {
        seq![(key, response)] + entries.remove(key_place(entries, key))
    } else if entries.len() == capacity {
        seq![(key, response)] + entries.drop_last()
    } else {
        seq![(key, response)] + entries
    }
}

/// `lru::LruCache`. Proofs see nothing of it but what `lru_entries` and `lru_capacity` name.
#[verifier::external_type_specification]
#[verifier::external_body]
#[verifier::reject_recursive_types(K)]
#[verifier::reject_recursive_types(V)]
#[verifier::reject_recursive_types(S)]
pub struct ExLruCache<K, V, S>(lru::LruCache<K, V, S>);

/// `lru::DefaultHasher`. Proofs see nothing of it.
#[verifier::external_type_specification]
#[verifier::external_body]
pub struct ExLruHasher(lru::DefaultHasher);

/// What an `lru::LruCache` holds, the most recently used entry first.
pub uninterp spec fn lru_entries(cache: lru::LruCache<String, CachedResponse>) -> CacheSeq;

/// The number of entries that an `lru::LruCache` was made for.
pub uninterp spec fn lru_capacity(cache: lru::LruCache<String, CachedResponse>) -> nat;

/// Every capacity up to this one gives a table whose size in bytes can be counted on any machine.
pub const MAX_CACHE_CAPACITY: usize = usize::MAX / 128;

/// `lru::LruCache::new`: an empty cache for `capacity` entries.
///
/// It panics for no entries at all and for more than a table can be laid out for; like every
/// allocation it ends the process where memory runs out.
#[verifier::external_body]
fn lru_new(capacity: usize) -> (cache: lru::LruCache<String, CachedResponse>)
    requires
        0 < capacity <= MAX_CACHE_CAPACITY,
    ensures
        lru_entries(cache) == Seq::<(Seq<char>, ResponseView)>::empty(),
        lru_capacity(cache) == capacity,
{
    lru::LruCache::new(std::num::NonZeroUsize::new(capacity).unwrap())
}

/// `lru::LruCache::get`: the value under the key, which becomes the most recently used one.
#[verifier::external_body]
fn lru_get<'a>(cache: &'a mut lru::LruCache<String, CachedResponse>, key: &String) -> (value:
    Option<&'a CachedResponse>)
    ensures
        match value {
            Some(cached) => cached_under(lru_entries(*old(cache)), key@) == Some(cached@),
            None => cached_under(lru_entries(*old(cache)), key@) is None,
        },
        lru_entries(*final(cache)) == looked_up(lru_entries(*old(cache)), key@),
        lru_capacity(*final(cache)) == lru_capacity(*old(cache)),
{
    cache.get(key)
}

/// `lru::LruCache::put`: the value becomes the most recently used one; it takes the place of the
/// value under the same key, or else of the least recently used one where the cache is full.
#[verifier::external_body]
fn lru_put(cache: &mut lru::LruCache<String, CachedResponse>, key: String, value: CachedResponse)
    ensures
        lru_entries(*final(cache)) == stored(
            lru_entries(*old(cache)),
            lru_capacity(*old(cache)),
            key@,
            value@,
        ),
        lru_capacity(*final(cache)) == lru_capacity(*old(cache)),
{
    cache.put(key, value);
}

/// A cache of responses, or none where caching is off.
pub struct ResponseCache {
    cache: Option<lru::LruCache<String, CachedResponse>>,
}

/// What a cache holds, and for how many entries it has room.
pub struct CacheView {
    pub capacity: nat,
    pub entries: CacheSeq,
}

impl View for ResponseCache {
    type V = Option<CacheView>;

    closed spec fn view(&self) -> Option<CacheView> {
        match self.cache {
            Some(cache) => Some(
                CacheView { capacity: lru_capacity(cache), entries: lru_entries(cache) },
            ),
            None => None,
        }
    }
}

/// No key stands twice, there are no more entries than there is room for, and every response is
/// one that may be cached.
pub open spec fn cache_well_formed(cache: Option<CacheView>) -> bool {
    match cache {
        Some(cache) => {
            &&& cache.capacity > 0
            &&& cache.entries.len() <= cache.capacity
            &&& keys_distinct(cache.entries)
            &&& forall|i: int|
                0 <= i < cache.entries.len() ==> entry_well_formed(#[trigger] cache.entries[i])
        },
        None => true,
    }
}

/// No key stands twice.
pub open spec fn keys_distinct(entries: CacheSeq) -> bool {
    forall|i: int, j: int|
        0 <= i < j < entries.len() ==> (#[trigger] entries[i]).0 != (#[trigger] entries[j]).0
}

/// A well-formed response that may be cached.
pub open spec fn entry_well_formed(entry: (Seq<char>, ResponseView)) -> bool {
    &&& response_well_formed(entry.1)
    &&& is_cacheable(entry.1)
}

/// What a lookup answers: the response under the key, if caching is on and there is a key.
pub open spec fn lookup_answer(cache: Option<CacheView>, key: Option<Seq<char>>) -> Option<
    ResponseView,
> {
    match (cache, key) {
        (Some(cache), Some(key)) => cached_under(cache.entries, key),
        _ => None,
    }
}

/// The cache after a lookup.
pub open spec fn after_lookup(cache: Option<CacheView>, key: Option<Seq<char>>) -> Option<
    CacheView,
> {
    match (cache, key) {
        (Some(cache), Some(key)) => Some(
            CacheView { entries: looked_up(cache.entries, key), ..cache },
        ),
        _ => cache,
    }
}

/// The cache after a response to a request with the given key came in.
pub open spec fn after_store(
    cache: Option<CacheView>,
    key: Option<Seq<char>>,
    response: ResponseView,
) -> Option<CacheView> {
    match (cache, key) {
        (Some(cache), Some(key)) => if is_cacheable(response) {
            let entries = stored(cache.entries, cache.capacity, key, response);
            Some(CacheView { entries, ..cache })
        } else {
            Some(cache)
        },
        _ => cache,
    }
}

impl ResponseCache {
    /// A cache with room for a number of responses; caching is off where the number is zero.
    pub fn new(max_cache_entries: usize) -> (cache: ResponseCache)
        requires
            max_cache_entries <= MAX_CACHE_CAPACITY,
        ensures
            cache@ == (if max_cache_entries == 0 {
                None
            } else {
                Some(CacheView { capacity: max_cache_entries as nat, entries: Seq::empty() })
            }),
            cache_well_formed(cache@),
    {
        if max_cache_entries == 0 {
            ResponseCache { cache: None }
        } else {
            ResponseCache { cache: Some(lru_new(max_cache_entries)) }
        }
    }
}

/// The cached response under a key.
pub fn try_get_cached_response(cache: &mut ResponseCache, cache_key: &Option<String>) -> (response:
    Option<Response>)
    requires
        cache_well_formed(old(cache)@),
    ensures
        match response {
            Some(found) => lookup_answer(old(cache)@, key_view(*cache_key)) == Some(found@)
                && response_well_formed(found@),
            None => lookup_answer(old(cache)@, key_view(*cache_key)) is None,
        },
        final(cache)@ == after_lookup(old(cache)@, key_view(*cache_key)),
        cache_well_formed(final(cache)@),
{
    proof {
        lemma_lookup_well_formed(cache@, key_view(*cache_key));
    }
    match cache_key {
        None => None,
        Some(key) => match cache.cache.as_mut() {
            None => None,
            Some(entries) => match lru_get(entries, key) {
                None => None,
                Some(cached) => Some(cached_to_response(cached)),
            },
        },
    }
}

/// Puts a response into the cache, if there is a key for it and it may be cached.
pub fn maybe_store_cached_response(
    cache: &mut ResponseCache,
    cache_key: &Option<String>,
    response: &Response,
)
    requires
        cache_well_formed(old(cache)@),
        response_well_formed(response@),
    ensures
        final(cache)@ == after_store(old(cache)@, key_view(*cache_key), response@),
        cache_well_formed(final(cache)@),
{
    proof {
        lemma_store_well_formed(cache@, key_view(*cache_key), response@);
    }
    match cache_key {
        None => {},
        Some(key) => {
            if response_is_cacheable(response) {
                match cache.cache.as_mut() {
                    None => {},
                    Some(entries) => {
                        lru_put(entries, key.as_str().to_owned(), response_to_cached(response));
                    },
                }
            }
        },
    }
}

/// A key has one place.
proof fn lemma_one_key_place(entries: CacheSeq, i: int)
    requires
        keys_distinct(entries),
        0 <= i < entries.len(),
    ensures
        has_key(entries, entries[i].0),
        key_place(entries, entries[i].0) == i,
{
    let p = key_place(entries, entries[i].0);
    assert(0 <= p < entries.len() && entries[p].0 == entries[i].0);
}

/// What a lookup finds is a response that may be cached, and a lookup keeps the cache well-formed.
proof fn lemma_lookup_well_formed(cache: Option<CacheView>, key: Option<Seq<char>>)
    requires
        cache_well_formed(cache),
    ensures
        cache_well_formed(after_lookup(cache, key)),
        lookup_answer(cache, key) matches Some(found) ==> response_well_formed(found)
            && is_cacheable(found),
{
    if let (Some(cache), Some(key)) = (cache, key) {
        let entries = cache.entries;
        if has_key(entries, key) {
            let p = key_place(entries, key);
            assert(0 <= p < entries.len() && entries[p].0 == key);
            assert(entry_well_formed(entries[p]));
            let after = looked_up(entries, key);
            let rest = entries.remove(p);
            assert forall|i: int| 0 <= i < after.len() implies entry_well_formed(
                #[trigger] after[i],
            ) by {
                if i > 0 {
                    assert(after[i] == rest[i - 1]);
                    assert(rest[i - 1] == entries[if i - 1 < p { i - 1 } else { i }]);
                }
            }
            assert forall|i: int, j: int| 0 <= i < j < after.len() implies (#[trigger] after[i]).0
                != (#[trigger] after[j]).0 by {
                assert(after[j] == rest[j - 1]);
                assert(rest[j - 1] == entries[if j - 1 < p { j - 1 } else { j }]);
                if i > 0 {
                    assert(after[i] == rest[i - 1]);
                    assert(rest[i - 1] == entries[if i - 1 < p { i - 1 } else { i }]);
                }
            }
        }
    }
}

/// Storing a response keeps the cache well-formed.
proof fn lemma_store_well_formed(
    cache: Option<CacheView>,
    key: Option<Seq<char>>,
    response: ResponseView,
)
    requires
        cache_well_formed(cache),
        response_well_formed(response),
    ensures
        cache_well_formed(after_store(cache, key, response)),
{
    if let (Some(cache), Some(key)) = (cache, key) {
        if is_cacheable(response) {
            let entries = cache.entries;
            let after = stored(entries, cache.capacity, key, response);
            let p = key_place(entries, key);
            if has_key(entries, key) {
                assert(0 <= p < entries.len() && entries[p].0 == key);
            }
            let found = has_key(entries, key);
            assert(entry_well_formed(after[0]));
            assert forall|i: int| 0 < i < after.len() implies (#[trigger] after[i])
                == entries[if found && i - 1 >= p { i } else { i - 1 }] by {}
            assert forall|i: int| 0 <= i < after.len() implies entry_well_formed(
                #[trigger] after[i],
            ) by {
                if i > 0 {
                    assert(after[i] == entries[if found && i - 1 >= p { i } else { i - 1 }]);
                }
            }
            assert forall|i: int, j: int| 0 <= i < j < after.len() implies (#[trigger] after[i]).0
                != (#[trigger] after[j]).0 by {
                let b = if found && j - 1 >= p { j } else { j - 1 };
                assert(after[j] == entries[b]);
                if i > 0 {
                    assert(after[i] == entries[if found && i - 1 >= p { i } else { i - 1 }]);
                } else {
                    if !found && entries[b].0 == key {
                        assert(has_key(entries, key));
                    }
                }
            }
        }
    }
}

/// Looking a key up right after a cacheable response was stored under it gives that response.
pub proof fn law_lookup_gives_what_was_stored(
    cache: CacheView,
    key: Seq<char>,
    response: ResponseView,
)
    requires
        cache_well_formed(Some(cache)),
        response_well_formed(response),
        is_cacheable(response),
    ensures
        lookup_answer(after_store(Some(cache), Some(key), response), Some(key)) == Some(response),
{
    lemma_store_well_formed(Some(cache), Some(key), response);
    let after = stored(cache.entries, cache.capacity, key, response);
    assert(after[0] == (key, response));
    lemma_one_key_place(after, 0);
}

/// A stored response stays under its key when another response is stored under another key, unless
/// the cache is full and the response is the least recently used one.
pub proof fn law_store_drops_only_the_least_recently_used(
    cache: CacheView,
    key: Seq<char>,
    response: ResponseView,
    i: int,
)
    requires
        cache_well_formed(Some(cache)),
        response_well_formed(response),
        0 <= i < cache.entries.len(),
        cache.entries[i].0 != key,
        has_key(cache.entries, key) || cache.entries.len() < cache.capacity || i
            < cache.entries.len() - 1,
    ensures
        lookup_answer(after_store(Some(cache), Some(key), response), Some(cache.entries[i].0))
            == Some(cache.entries[i].1),
{
    let entries = cache.entries;
    lemma_one_key_place(entries, i);
    if is_cacheable(response) {
        lemma_store_well_formed(Some(cache), Some(key), response);
        let after = stored(entries, cache.capacity, key, response);
        let p = key_place(entries, key);
        if has_key(entries, key) {
            assert(0 <= p < entries.len() && entries[p].0 == key);
        }
        let q = if has_key(entries, key) && i > p { i } else { i + 1 };
        assert(after[q] == entries[i]);
        lemma_one_key_place(after, q);
    }
}

/// When a response is stored under a new key in a full cache, the least recently used response is
/// no longer there.
pub proof fn law_full_cache_drops_the_least_recently_used(
    cache: CacheView,
    key: Seq<char>,
    response: ResponseView,
)
    requires
        cache_well_formed(Some(cache)),
        response_well_formed(response),
        is_cacheable(response),
        !has_key(cache.entries, key),
        cache.entries.len() == cache.capacity,
    ensures
        lookup_answer(
            after_store(Some(cache), Some(key), response),
            Some(cache.entries.last().0),
        ) is None,
{
    let entries = cache.entries;
    let gone = entries.last().0;
    let after = stored(entries, cache.capacity, key, response);
    assert(entries[entries.len() - 1].0 == gone);
    if has_key(after, gone) {
        let i = key_place(after, gone);
        assert(0 <= i < after.len() && after[i].0 == gone);
        if i == 0 {
            assert(has_key(entries, key));
        } else {
            assert(after[i] == entries[i - 1]);
        }
    }
}

/// A message whose `Cache-Control` field says `no-store`, `no-cache` or `private`, in whichever of
/// its values, is not cached: a request has no cache key, and a response may not go into the cache.
pub proof fn law_marked_message_is_not_cached(
    request: RequestView,
    response: ResponseView,
    directive: Seq<char>,
    i: int,
    k: int,
)
    requires
        directive == "no-store"@ || directive == "no-cache"@ || directive == "private"@,
    ensures
        0 <= i < request.headers.len() && request.headers[i].0 == "cache-control"@ && 0 <= k
            < request.headers[i].1.len() && holds_directive(request.headers[i].1[k], directive)
            ==> cache_key(request) is None,
        0 <= i < response.headers.len() && response.headers[i].0 == "cache-control"@ && 0 <= k
            < response.headers[i].1.len() && holds_directive(response.headers[i].1[k], directive)
            ==> !is_cacheable(response),
{
}

/// A response that may not be cached leaves the cache as it is, and so does every response to a
/// request without a key.
pub proof fn law_uncacheable_is_not_stored(
    cache: Option<CacheView>,
    key: Option<Seq<char>>,
    response: ResponseView,
)
    requires
        !is_cacheable(response) || key is None,
    ensures
        after_store(cache, key, response) == cache,
{
}

/// Every response that a lookup answers with is a plain success that sets no cookie and does not
/// forbid caching.
pub proof fn law_answers_are_cacheable(cache: Option<CacheView>, key: Option<Seq<char>>)
    requires
        cache_well_formed(cache),
    ensures
        lookup_answer(cache, key) matches Some(found) ==> is_cacheable(found),
{
    lemma_lookup_well_formed(cache, key);
}

/// A lookup changes no answer.
pub proof fn law_lookup_changes_no_answer(
    cache: Option<CacheView>,
    key: Option<Seq<char>>,
    other: Option<Seq<char>>,
)
    requires
        cache_well_formed(cache),
    ensures
        lookup_answer(after_lookup(cache, key), other) == lookup_answer(cache, other),
{
    lemma_lookup_well_formed(cache, key);
    if let (Some(cache), Some(key), Some(other)) = (cache, key, other) {
        let entries = cache.entries;
        let after = looked_up(entries, key);
        if has_key(entries, key) {
            let p = key_place(entries, key);
            assert(0 <= p < entries.len() && entries[p].0 == key);
            if has_key(entries, other) {
                let i = key_place(entries, other);
                assert(0 <= i < entries.len() && entries[i].0 == other);
                let q = if i == p { 0 } else if i < p { i + 1 } else { i };
                assert(after[q] == entries[i]);
                lemma_one_key_place(after, q);
            } else if has_key(after, other) {
                let q = key_place(after, other);
                assert(0 <= q < after.len() && after[q].0 == other);
                let i = if q == 0 { p } else if q - 1 < p { q - 1 } else { q };
                assert(after[q] == entries[i]);
            }
        }
    }
}

/// The name of a field that is looked up in lower case is that name.
proof fn lemma_looked_up_names()
    ensures
        header_name("authorization"@) == Some("authorization"@),
        header_name("cookie"@) == Some("cookie"@),
        header_name("set-cookie"@) == Some("set-cookie"@),
{
    reveal_strlit("authorization");
    reveal_strlit("cookie");
    reveal_strlit("set-cookie");
    assert(is_token("authorization"@));
    assert(is_token("cookie"@));
    assert(is_token("set-cookie"@));
    assert("authorization"@.map_values(|c: char| lower_char(c)) =~= "authorization"@);
    assert("cookie"@.map_values(|c: char| lower_char(c)) =~= "cookie"@);
    assert("set-cookie"@.map_values(|c: char| lower_char(c)) =~= "set-cookie"@);
}

/// The header fields hold no `Cache-Control` value with one of the three directives in it.
proof fn lemma_unmarked(headers: HeaderSeq)
    ensures
        forbids_caching(headers) <==> exists|i: int, k: int|
            0 <= i < headers.len() && headers[i].0 == "cache-control"@ && 0 <= k
                < headers[i].1.len() && {
                let value = lower_bytes(#[trigger] headers[i].1[k]);
                ||| contains_bytes(value, encode_utf8("no-cache"@))
                ||| contains_bytes(value, encode_utf8("no-store"@))
                ||| contains_bytes(value, encode_utf8("private"@))
            },
{
}

/// A request has a cache key if and only if it is a `GET` without a body, has no `Authorization`
/// and no `Cookie` field, and no value of its `Cache-Control` field holds `no-cache`, `no-store` or
/// `private` in any case. The key is then its URI.
pub proof fn law_cache_key_is_for_plain_gets(request: RequestView)
    ensures
        cache_key(request) is Some <==> {
            &&& request.method == "GET"@
            &&& request.body.len() == 0
            &&& forall|i: int|
                0 <= i < request.headers.len() ==> (#[trigger] request.headers[i]).0
                    != "authorization"@ && request.headers[i].0 != "cookie"@
            &&& !exists|i: int, k: int|
                0 <= i < request.headers.len() && request.headers[i].0 == "cache-control"@ && 0
                    <= k < request.headers[i].1.len() && {
                    let value = lower_bytes(#[trigger] request.headers[i].1[k]);
                    ||| contains_bytes(value, encode_utf8("no-cache"@))
                    ||| contains_bytes(value, encode_utf8("no-store"@))
                    ||| contains_bytes(value, encode_utf8("private"@))
                }
        },
        cache_key(request) is Some ==> cache_key(request) == Some(request.uri),
{
    let headers = request.headers;
    lemma_looked_up_names();
    lemma_unmarked(headers);
    if has_field(headers, "authorization"@) {
        let i = place_of(headers, "authorization"@);
        assert(headers[i].0 == "authorization"@);
    }
    if has_field(headers, "cookie"@) {
        let i = place_of(headers, "cookie"@);
        assert(headers[i].0 == "cookie"@);
    }
}

/// A response may be cached if and only if its status code is 200, it has no `Set-Cookie` field,
/// and no value of its `Cache-Control` field holds `no-cache`, `no-store` or `private` in any case.
pub proof fn law_only_plain_successes_are_cached(response: ResponseView)
    ensures
        is_cacheable(response) <==> {
            &&& response.status == 200
            &&& forall|i: int|
                0 <= i < response.headers.len() ==> (#[trigger] response.headers[i]).0
                    != "set-cookie"@
            &&& !exists|i: int, k: int|
                0 <= i < response.headers.len() && response.headers[i].0 == "cache-control"@ && 0
                    <= k < response.headers[i].1.len() && {
                    let value = lower_bytes(#[trigger] response.headers[i].1[k]);
                    ||| contains_bytes(value, encode_utf8("no-cache"@))
                    ||| contains_bytes(value, encode_utf8("no-store"@))
                    ||| contains_bytes(value, encode_utf8("private"@))
                }
        },
{
    let headers = response.headers;
    lemma_looked_up_names();
    lemma_unmarked(headers);
    if has_field(headers, "set-cookie"@) {
        let i = place_of(headers, "set-cookie"@);
        assert(headers[i].0 == "set-cookie"@);
    }
}

/// Storing changes the answer for no key but its own, and takes at most one other response away;
/// the capacity stays.
pub proof fn law_store_keeps_to_its_key(cache: CacheView, key: Seq<char>, response: ResponseView)
    requires
        cache_well_formed(Some(cache)),
        response_well_formed(response),
    ensures
        after_store(Some(cache), Some(key), response) matches Some(after) && {
            &&& after.capacity == cache.capacity
            &&& after.entries.len() <= cache.capacity
            &&& after.entries.len() >= cache.entries.len()
        },
        after_store(None, Some(key), response) is None,
        lookup_answer(None, Some(key)) is None,
{
    lemma_store_well_formed(Some(cache), Some(key), response);
    if has_key(cache.entries, key) {
        let p = key_place(cache.entries, key);
        assert(0 <= p < cache.entries.len() && cache.entries[p].0 == key);
    }
}

} // verus!
