//! A pool: a fixed row of workers that requests are dealt out to in turn.

use crate::config::PoolKey;
use crate::config::PoolSettings;
use vstd::prelude::*;

verus! {

/// The worker that request number `counter` goes to, among `workers`
/// workers: the requests visit the workers in a cycle, whatever the workers
/// are busy with.
pub open spec fn worker_for(counter: nat, workers: nat) -> nat
    recommends
        workers > 0,
{
    counter % workers
}

/// The dispatch counter after the request that found it at `counter`. It
/// starts over after the largest value.
pub open spec fn counter_after(counter: usize) -> usize {
    if counter == usize::MAX {
        0
    } else {
        (counter + 1) as usize
    }
}

/// The workers of one configuration, and the count of requests dealt out.
///
/// `W` is whatever stands for a worker where the pool is used. A pool never
/// changes its size or its configuration.
pub struct StockfishPool<W> {
    workers: Vec<W>,
    next: usize,
    key: PoolKey,
}

impl<W> StockfishPool<W> {
    #[verifier::type_invariant]
    spec fn inv(self) -> bool {
        self.workers.len() == self.key@.worker_count()
    }

    /// The workers, in order.
    pub closed spec fn workers(self) -> Seq<W> {
        self.workers@
    }

    /// The number of requests dealt out so far, as the counter holds it.
    pub closed spec fn dispatched(self) -> usize {
        self.next
    }

    /// The configuration that the pool was built from.
    pub closed spec fn settings(self) -> PoolSettings {
        self.key@
    }

    /// The pool for `key` over `workers`, which must be as many as the key
    /// asks for; any other number of workers is handed back.
    pub fn new(key: &PoolKey, workers: Vec<W>) -> (out: Result<Self, Vec<W>>)
        ensures
            workers.len() == key@.worker_count() ==> (out matches Ok(pool) && pool.workers()
                == workers@ && pool.dispatched() == 0 && pool.settings() == key@),
            workers.len() != key@.worker_count() ==> out == Err::<Self, Vec<W>>(workers),
    {
        if workers.len() == key.worker_count() {
            Ok(StockfishPool { workers, next: 0, key: key.clone() })
        } else {
            Err(workers)
        }
    }

    /// The configuration that the pool was built from.
    pub fn key(&self) -> (out: &PoolKey)
        ensures
            out@ == self.settings(),
    {
        &self.key
    }

    /// The number of workers.
    pub fn size(&self) -> (out: usize)
        ensures
            out == self.workers().len(),
            out == self.settings().worker_count(),
            out >= 1,
    {
        proof {
            use_type_invariant(self);
        }
        self.workers.len()
    }

    /// Deals out one request: gives the index of the worker that it goes to,
    /// and counts it.
    pub fn next_worker(&mut self) -> (out: usize)
        ensures
            out == worker_for(old(self).dispatched() as nat, old(self).workers().len()),
            out < old(self).workers().len(),
            final(self).dispatched() == counter_after(old(self).dispatched()),
            final(self).workers() == old(self).workers(),
            final(self).settings() == old(self).settings(),
    {
        proof {
            use_type_invariant(&*self);
        }
        let out = self.next % self.workers.len();
        self.next = if self.next == usize::MAX {
            0
        } else {
            self.next + 1
        };
        out
    }

    /// The worker at `index`.
    pub fn worker(&self, index: usize) -> (out: Option<&W>)
        ensures
            index < self.workers().len() ==> out == Some(&self.workers()[index as int]),
            index >= self.workers().len() ==> out is None,
    {
        if index < self.workers.len() {
            Some(&self.workers[index])
        } else {
            None
        }
    }
}

/// The counter after `k` requests, starting from zero.
pub open spec fn counter_after_requests(k: nat) -> usize
    decreases k,
{
    if k == 0 {
        0
    } else {
        counter_after(counter_after_requests((k - 1) as nat))
    }
}

/// As long as the counter has not started over, request number `k`, counted
/// from zero, finds the counter at `k` and so goes to worker `k mod n`.
pub proof fn lemma_dispatch_order(k: nat, n: nat)
    requires
        n > 0,
        k <= usize::MAX,
    ensures
        counter_after_requests(k) == k,
        worker_for(counter_after_requests(k) as nat, n) == k % n,
    decreases k,
{
    if k > 0 {
        lemma_dispatch_order((k - 1) as nat, n);
    }
}

/// The requests visit the workers in a cycle: the one after worker `n - 1`
/// goes to worker 0, every other to the next worker.
pub proof fn lemma_round_robin(k: nat, n: nat)
    requires
        n > 0,
    ensures
        worker_for(k + 1, n) == if worker_for(k, n) == n - 1 {
            0
        } else {
            worker_for(k, n) + 1
        },
{
    vstd::arithmetic::div_mod::lemma_fundamental_div_mod(k as int, n as int);
    vstd::arithmetic::div_mod::lemma_fundamental_div_mod((k + 1) as int, n as int);
    let q = k as int / n as int;
    let r = k as int % n as int;
    assert(n as int * q == q * n as int) by (nonlinear_arith);
    assert((q + 1) * n as int == q * n as int + n as int) by (nonlinear_arith);
    if r == n - 1 {
        vstd::arithmetic::div_mod::lemma_fundamental_div_mod_converse(
            (k + 1) as int,
            n as int,
            q + 1,
            0,
        );
    } else {
        vstd::arithmetic::div_mod::lemma_fundamental_div_mod_converse(
            (k + 1) as int,
            n as int,
            q,
            r + 1,
        );
    }
}

} // verus!
