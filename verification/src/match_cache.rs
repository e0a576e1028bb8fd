//! The cache of match results that a pattern keeps: an LRU cache from the
//! text of a topic to the result of matching that topic.
use std::collections::hash_map::RandomState;
use std::num::NonZeroUsize;
use std::sync::Arc;

use lru::LruCache;
use vstd::prelude::*;

use crate::topic_match::TopicMatch;

verus! {

/// The LRU cache of the `lru` crate.
#[verifier::external_type_specification]
#[verifier::external_body]
#[verifier::reject_recursive_types(K)]
#[verifier::reject_recursive_types(V)]
#[verifier::reject_recursive_types(S)]
pub struct ExLruCache<K, V, S>(LruCache<K, V, S>);

/// A cache of matches, keyed by topic text.
pub type MatchCache = LruCache<String, Arc<TopicMatch>, RandomState>;

/// The entries of a cache of matches: topic text to match.
pub uninterp spec fn cached_matches(c: MatchCache) -> Map<Seq<char>, TopicMatch>;

/// A new cache, by `LruCache::with_hasher`, that holds at most `capacity`
/// entries: it starts empty.
#[verifier::external_body]
pub(crate) fn new_match_cache(capacity: usize) -> (r: MatchCache)
    requires
        capacity > 0,
    ensures
        cached_matches(r) =~= Map::empty(),
{
    LruCache::with_hasher(NonZeroUsize::new(capacity).unwrap(), RandomState::new())
}

/// Looks a topic up, by `LruCache::get`: gives the match stored under the
/// text if there is one. Only the order of use changes; the entries stay.
/// It does not panic.
#[verifier::external_body]
pub(crate) fn cache_get(c: &mut MatchCache, key: &str) -> (r:
    Option<Arc<TopicMatch>>)
    ensures
        cached_matches(*final(c)) == cached_matches(*old(c)),
        r is Some <==> cached_matches(*old(c)).dom().contains(key@),
        r matches Some(m) ==> *m == cached_matches(*old(c))[key@],
    no_unwind
{
    c.get(key).cloned()
}

/// Stores a match under a text, by `LruCache::put`: afterwards the text
/// maps to it. Any other entry either stays as it was or, when the cache was
/// full, is dropped. It does not panic (running out of memory aborts).
#[verifier::external_body]
pub(crate) fn cache_put(
    c: &mut MatchCache,
    key: String,
    value: Arc<TopicMatch>,
)
    ensures
        cached_matches(*final(c)).dom().contains(key@),
        cached_matches(*final(c))[key@] == *value,
        forall|k: Seq<char>|
            #[trigger] cached_matches(*final(c)).dom().contains(k) && k != key@ ==> cached_matches(
                *old(c),
            ).dom().contains(k) && cached_matches(*final(c))[k] == cached_matches(*old(c))[k],
    no_unwind
{
    c.put(key, value);
}

} // verus!
