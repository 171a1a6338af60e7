//! The registry: one pool per configuration, made on first use and kept.
//!
//! A registry is an ordinary value. Whoever wants one registry for a whole
//! process keeps it in one place and guards it; while a pool is being made
//! the guard stays held, so that no two pools are made for one key.

use crate::config::PoolKey;
use crate::config::PoolSettings;
use vstd::prelude::*;

verus! {

struct Entry<P> {
    key: PoolKey,
    pool: P,
}

/// The pools made so far, by configuration. `P` is whatever stands for a
/// pool where the registry is used. Nothing is ever taken out.
pub struct PoolRegistry<P> {
    entries: Vec<Entry<P>>,
    pools: Ghost<Map<PoolSettings, P>>,
}

/// The pools after a request for `key`, where `created` is what making a
/// pool gives, if it succeeds: a key that has a pool keeps it, a key without
/// one gets the pool made, and a failure leaves no trace.
pub open spec fn pools_after<P>(
    pools: Map<PoolSettings, P>,
    key: PoolSettings,
    created: Option<P>,
) -> Map<PoolSettings, P> {
    if pools.contains_key(key) {
        pools
    } else {
        match created {
            Some(pool) => pools.insert(key, pool),
            None => pools,
        }
    }
}

/// The pool that a request for `key` is answered with, if any: the one that
/// the key has, or else the one made.
pub open spec fn pool_for<P>(
    pools: Map<PoolSettings, P>,
    key: PoolSettings,
    created: Option<P>,
) -> Option<P> {
    if pools.contains_key(key) {
        Some(pools[key])
    } else {
        created
    }
}

/// What `result` holds if it is a success.
pub open spec fn success_of<P, E>(result: Result<P, E>) -> Option<P> {
    match result {
        Ok(pool) => Some(pool),
        Err(_) => None,
    }
}

impl<P> View for PoolRegistry<P> {
    type V = Map<PoolSettings, P>;

    closed spec fn view(&self) -> Map<PoolSettings, P> {
        self.pools@
    }
}

impl<P> PoolRegistry<P> {
    #[verifier::type_invariant]
    spec fn inv(self) -> bool {
        &&& forall|i: int|
            0 <= i < self.entries.len() ==> self.pools@.contains_key(
                (#[trigger] self.entries[i]).key@,
            ) && self.pools@[self.entries[i].key@] == self.entries[i].pool
        &&& forall|k: PoolSettings| #[trigger]
            self.pools@.contains_key(k) ==> exists|i: int|
                0 <= i < self.entries.len() && (#[trigger] self.entries[i]).key@ == k
    }

    /// A registry without pools.
    pub fn new() -> (out: Self)
        ensures
            out@ == Map::<PoolSettings, P>::empty(),
    {
        PoolRegistry { entries: Vec::new(), pools: Ghost(Map::empty()) }
    }

    fn position(&self, key: &PoolKey) -> (out: Option<usize>)
        ensures
            self@.contains_key(key@) ==> (out matches Some(i) && i < self.entries.len()
                && self.entries[i as int].key@ == key@ && self.entries[i as int].pool
                == self@[key@]),
            !self@.contains_key(key@) ==> out is None,
    {
        proof {
            use_type_invariant(self);
        }
        let mut i: usize = 0;
        while i < self.entries.len()
            invariant
                i <= self.entries.len(),
                forall|j: int| 0 <= j < i ==> (#[trigger] self.entries[j]).key@ != key@,
                forall|j: int|
                    0 <= j < self.entries.len() ==> self.pools@.contains_key(
                        (#[trigger] self.entries[j]).key@,
                    ) && self.pools@[self.entries[j].key@] == self.entries[j].pool,
            decreases self.entries.len() - i,
        {
            if self.entries[i].key == *key {
                return Some(i);
            }
            i += 1;
        }
        None
    }

    /// The pool that `key` has, if it has one.
    pub fn get(&self, key: &PoolKey) -> (out: Option<&P>)
        ensures
            self@.contains_key(key@) ==> out == Some(&self@[key@]),
            !self@.contains_key(key@) ==> out is None,
    {
        match self.position(key) {
            Some(i) => Some(&self.entries[i].pool),
            None => None,
        }
    }

    /// The pool for `key`: the one that the key has, or else the one that
    /// `create` makes, which the key then keeps. `create` is called only for a
    /// key without a pool; where it fails, its error is handed on and the
    /// registry is left as it was, so that a later request tries again.
    pub fn get_or_create<'a, E, F: FnOnce() -> Result<P, E>>(
        &'a mut self,
        key: &PoolKey,
        create: F,
    ) -> (out: Result<&'a P, E>)
        requires
            call_requires(create, ()),
        ensures
            old(self)@.contains_key(key@) ==> final(self)@ == old(self)@ && out == Ok::<&P, E>(
                &old(self)@[key@],
            ),
            !old(self)@.contains_key(key@) ==> match out {
                Ok(pool) => call_ensures(create, (), Ok::<P, E>(*pool)) && final(self)@ == old(
                    self,
                )@.insert(key@, *pool),
                Err(e) => call_ensures(create, (), Err::<P, E>(e)) && final(self)@ == old(self)@,
            },
    {
        match self.position(key) {
            Some(i) => Ok(&self.entries[i].pool),
            None => self.settle(key, create()),
        }
    }

    /// Answers a request for `key`, given what making a pool gave: a key
    /// that has a pool is answered with it, and what was made is dropped; a
    /// key without one keeps and is answered with the pool made; where none
    /// could be made, the error is handed on and the registry is left as it
    /// was.
    pub fn settle<'a, E>(&'a mut self, key: &PoolKey, created: Result<P, E>) -> (out: Result<
        &'a P,
        E,
    >)
        ensures
            final(self)@ == pools_after(old(self)@, key@, success_of(created)),
            old(self)@.contains_key(key@) ==> out == Ok::<&P, E>(&old(self)@[key@]),
            !old(self)@.contains_key(key@) ==> match created {
                Ok(pool) => out == Ok::<&P, E>(&pool),
                Err(e) => out == Err::<&P, E>(e),
            },
    {
        proof {
            use_type_invariant(&*self);
        }
        match self.position(key) {
            Some(i) => Ok(&self.entries[i].pool),
            None => match created {
                Ok(pool) => {
                    let mut fresh = PoolRegistry::new();
                    core::mem::swap(self, &mut fresh);
                    proof {
                        use_type_invariant(&fresh);
                    }
                    let ghost before = fresh.entries@;
                    let ghost pools = fresh.pools@.insert(key@, pool);
                    let mut entries = fresh.entries;
                    entries.push(Entry { key: key.clone(), pool });
                    let last = entries.len() - 1;
                    proof {
                        assert forall|i: int| 0 <= i < entries.len() implies pools.contains_key(
                            (#[trigger] entries[i]).key@,
                        ) && pools[entries[i].key@] == entries[i].pool by {
                            if i < before.len() {
                                assert(entries[i] == before[i]);
                            }
                        }
                        assert forall|k: PoolSettings| #[trigger]
                            pools.contains_key(k) implies exists|i: int|
                            0 <= i < entries.len() && (#[trigger] entries[i]).key@ == k by {
                            if k == key@ {
                                assert(entries[last as int].key@ == k);
                            } else {
                                let i = choose|i: int|
                                    0 <= i < before.len() && (#[trigger] before[i]).key@ == k;
                                assert(entries[i] == before[i]);
                            }
                        }
                    }
                    *self = PoolRegistry { entries, pools: Ghost(pools) };
                    Ok(&self.entries[last].pool)
                },
                Err(e) => Err(e),
            },
        }
    }
}

/// One request: its key, and the pool that making one gives, if making one
/// succeeds.
pub struct Request<P> {
    pub key: PoolSettings,
    pub created: Option<P>,
}

/// The pools after `requests`, in order.
pub open spec fn pools_after_all<P>(
    pools: Map<PoolSettings, P>,
    requests: Seq<Request<P>>,
) -> Map<PoolSettings, P>
    decreases requests.len(),
{
    if requests.len() == 0 {
        pools
    } else {
        pools_after(
            pools_after_all(pools, requests.drop_last()),
            requests.last().key,
            requests.last().created,
        )
    }
}

/// A key that has a pool keeps that pool, whatever is asked for afterwards.
pub proof fn lemma_pool_is_kept<P>(
    pools: Map<PoolSettings, P>,
    requests: Seq<Request<P>>,
    key: PoolSettings,
)
    requires
        pools.contains_key(key),
    ensures
        pools_after_all(pools, requests).contains_key(key),
        pools_after_all(pools, requests)[key] == pools[key],
    decreases requests.len(),
{
    if requests.len() > 0 {
        lemma_pool_is_kept(pools, requests.drop_last(), key);
    }
}

/// Equal keys are answered with one and the same pool: once a request for
/// `key` was answered with a pool, every later request for it is answered
/// with that pool, whatever was asked for in between, and makes no new one.
pub proof fn lemma_one_pool_per_key<P>(
    pools: Map<PoolSettings, P>,
    key: PoolSettings,
    first: Option<P>,
    between: Seq<Request<P>>,
    again: Option<P>,
)
    requires
        pool_for(pools, key, first) is Some,
    ensures
        ({
            let later = pools_after_all(pools_after(pools, key, first), between);
            &&& pool_for(later, key, again) == pool_for(pools, key, first)
            &&& pools_after(later, key, again) == later
        }),
{
    lemma_pool_is_kept(pools_after(pools, key, first), between, key);
}

/// A request that could make no pool leaves the registry as it was, so that
/// the next request for its key has a pool made anew.
pub proof fn lemma_failure_is_not_kept<P>(
    pools: Map<PoolSettings, P>,
    key: PoolSettings,
    next: Option<P>,
)
    requires
        !pools.contains_key(key),
    ensures
        pools_after(pools, key, None) == pools,
        pool_for(pools_after(pools, key, None), key, next) == next,
{
}


} // verus!
