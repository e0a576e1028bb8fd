//! Cache strategy configuration for topic pattern matching.
use vstd::prelude::*;

verus! {

/// A cache capacity, never zero (the role `NonZeroUsize` plays for the
/// LRU cache).
#[derive(Debug, Clone, Copy, PartialEq, Eq, Hash)]
pub struct CacheCapacity {
    value: usize,
}

impl CacheCapacity {
    /// The capacity is never zero.
    #[verifier::type_invariant]
    spec fn nonzero(self) -> bool {
        self.value > 0
    }

    /// The number of entries.
    pub closed spec fn spec_get(self) -> usize {
        self.value
    }

    /// `None` for 0, otherwise the capacity `n`.
    pub fn new(n: usize) -> (r: Option<CacheCapacity>)
        ensures
            r is None <==> n == 0,
            r matches Some(c) ==> c.spec_get() == n,
    {
        if n == 0 {
            None
        } else {
            Some(CacheCapacity { value: n })
        }
    }

    /// The number of entries, never zero.
    pub fn get(&self) -> (r: usize)
        ensures
            r == self.spec_get(),
            r > 0,
    {
        proof {
            use_type_invariant(self);
        }
        self.value
    }
}

/// Strategy for caching topic matching results
#[derive(Debug, Clone, Copy, PartialEq, Eq)]
pub enum CacheStrategy {
    /// Use LRU (Least Recently Used) cache with a fixed size
    Lru(CacheCapacity),
    /// No caching - always create new TopicPath instances
    NoCache,
}

/// The capacity a strategy stands for: 0 for no caching.
pub open spec fn strategy_capacity(c: CacheStrategy) -> nat {
    match c {
        CacheStrategy::Lru(n) => n.spec_get() as nat,
        CacheStrategy::NoCache => 0,
    }
}

impl CacheStrategy {
    /// Create a new cache strategy with the specified capacity:
    /// `NoCache` for 0, otherwise `Lru` with that capacity.
    pub fn new(capacity: usize) -> (r: Self)
        ensures
            capacity == 0 ==> r == CacheStrategy::NoCache,
            capacity > 0 ==> r is Lru && r->Lru_0.spec_get() == capacity,
            strategy_capacity(r) == capacity,
    {
        match CacheCapacity::new(capacity) {
            None => CacheStrategy::NoCache,
            Some(n) => CacheStrategy::Lru(n),
        }
    }

    /// Returns the cache capacity if using LRU strategy
    pub fn capacity(&self) -> (r: Option<CacheCapacity>)
        ensures
            r == (match *self {
                CacheStrategy::Lru(n) => Some(n),
                CacheStrategy::NoCache => None::<CacheCapacity>,
            }),
    {
        match self {
            CacheStrategy::Lru(size) => Some(*size),
            CacheStrategy::NoCache => None,
        }
    }
}

impl Default for CacheStrategy {
    /// Default strategy is no caching
    fn default() -> (r: Self)
        ensures
            r == CacheStrategy::NoCache,
    {
        CacheStrategy::NoCache
    }
}

} // verus!
