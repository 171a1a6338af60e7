//! The configuration that identifies a pool of engine workers.

use crate::text::append_decimal;
use crate::text::decimal_digits;
use vstd::prelude::*;
use vstd::std_specs::cmp::PartialEqSpecImpl;
use vstd::string::StringExecFns;

verus! {

/// The settings of one pool: the engine to run, how deep or how long it
/// searches, how many lines of play it reports, and how many workers serve.
/// Two requests with equal keys are served by the same pool.
#[derive(Debug, Eq, Hash)]
pub struct PoolKey {
    pub engine_path: String,
    pub depth: u32,
    pub multi_pv: u32,
    /// The time to think about one position, in milliseconds. Without it the
    /// search is bounded by `depth`.
    pub think_time_ms: Option<u64>,
    pub pool_size: usize,
}

/// The mathematical content of a [`PoolKey`].
pub struct PoolSettings {
    pub engine_path: Seq<char>,
    pub depth: u32,
    pub multi_pv: u32,
    pub think_time_ms: Option<u64>,
    pub pool_size: usize,
}

impl View for PoolKey {
    type V = PoolSettings;

    open spec fn view(&self) -> PoolSettings {
        PoolSettings {
            engine_path: self.engine_path@,
            depth: self.depth,
            multi_pv: self.multi_pv,
            think_time_ms: self.think_time_ms,
            pool_size: self.pool_size,
        }
    }
}

impl PoolSettings {
    /// The number of workers of a pool with these settings: the pool size,
    /// but at least one.
    pub open spec fn worker_count(self) -> usize {
        if self.pool_size < 1 {
            1
        } else {
            self.pool_size
        }
    }

    /// The command that starts a search: bounded by time where a time to
    /// think is set, else by depth.
    pub open spec fn go_command(self) -> Seq<char> {
        match self.think_time_ms {
            Some(ms) => "go movetime "@ + decimal_digits(ms as nat),
            None => "go depth "@ + decimal_digits(self.depth as nat),
        }
    }
}

impl Clone for PoolKey {
    fn clone(&self) -> (out: Self)
        ensures
            out@ == self@,
    {
        PoolKey {
            engine_path: self.engine_path.clone(),
            depth: self.depth,
            multi_pv: self.multi_pv,
            think_time_ms: self.think_time_ms,
            pool_size: self.pool_size,
        }
    }
}

impl PartialEq for PoolKey {
    fn eq(&self, other: &Self) -> (out: bool) {
        self.engine_path == other.engine_path && self.depth == other.depth && self.multi_pv
            == other.multi_pv && self.think_time_ms == other.think_time_ms && self.pool_size
            == other.pool_size
    }
}

impl PartialEqSpecImpl for PoolKey {
    open spec fn obeys_eq_spec() -> bool {
        true
    }

    open spec fn eq_spec(&self, other: &Self) -> bool {
        self@ == other@
    }
}

impl PoolKey {
    /// The key for a request. A pool size of zero stands for one worker.
    pub fn new(
        engine_path: String,
        depth: u32,
        multi_pv: u32,
        think_time_ms: Option<u64>,
        pool_size: usize,
    ) -> (out: Self)
        ensures
            out@ == (PoolSettings {
                engine_path: engine_path@,
                depth,
                multi_pv,
                think_time_ms,
                pool_size: if pool_size < 1 {
                    1
                } else {
                    pool_size
                },
            }),
    {
        PoolKey {
            engine_path,
            depth,
            multi_pv,
            think_time_ms,
            pool_size: if pool_size < 1 {
                1
            } else {
                pool_size
            },
        }
    }

    /// The number of workers that a pool for this key holds.
    pub fn worker_count(&self) -> (out: usize)
        ensures
            out == self@.worker_count(),
            out >= 1,
    {
        if self.pool_size < 1 {
            1
        } else {
            self.pool_size
        }
    }

    /// The command that starts a search under this key.
    pub fn go_command(&self) -> (out: String)
        ensures
            out@ == self@.go_command(),
    {
        match self.think_time_ms {
            Some(ms) => {
                let mut out = String::from_str("go movetime ");
                append_decimal(&mut out, ms);
                out
            },
            None => {
                let mut out = String::from_str("go depth ");
                append_decimal(&mut out, self.depth as u64);
                out
            },
        }
    }
}

} // verus!
