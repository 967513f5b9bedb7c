//! Bookkeeping model of the bounded connection pool.
//!
//! The pool hands out at most `max_size` live handles at a time. A handle is
//! either idle in the pool or checked out by exactly one caller; a caller that
//! finds the pool saturated is suspended (queued first-come-first-served), not
//! refused. The functions here are the pool's decision logic; the driver that
//! opens real connections consumes their outcomes.

use vstd::prelude::*;

verus! {

/// Connection parameters captured once from the process environment, plus the
/// fixed bound of the pool.
pub struct PoolConfig {
    pub host: String,
    pub user: String,
    pub dbname: String,
    pub max_size: usize,
}

impl PoolConfig {
    /// A usable configuration hands out at least one connection.
    pub open spec fn wf(self) -> bool {
        self.max_size >= 1
    }
}

/// Bound used for every pool this library starts.
pub const POOL_MAX_SIZE: usize = 16;

/// A required connection parameter was absent from the environment.
#[derive(Debug, PartialEq, Eq, Structural, Clone, Copy)]
pub enum ConfigError {
    MissingHost,
    MissingUser,
    MissingDbname,
}

/// Builds the pool configuration from the environment values, or reports the
/// first missing one. No connection is attempted here: the result is a plain
/// record of parameters.
pub fn config_from_env(host: Option<String>, user: Option<String>, dbname: Option<String>) -> (r:
    Result<PoolConfig, ConfigError>)
    ensures
        (r is Ok) <==> (host is Some && user is Some && dbname is Some),
        match r {
            Ok(cfg) => {
                &&& cfg.host == host.unwrap()
                &&& cfg.user == user.unwrap()
                &&& cfg.dbname == dbname.unwrap()
                &&& cfg.max_size == POOL_MAX_SIZE
                &&& cfg.wf()
            },
            Err(e) => match e {
                ConfigError::MissingHost => host is None,
                ConfigError::MissingUser => host is Some && user is None,
                ConfigError::MissingDbname => host is Some && user is Some && dbname is None,
            },
        },
{
    let h = match host {
        Some(h) => h,
        None => { return Err(ConfigError::MissingHost); },
    };
    let u = match user {
        Some(u) => u,
        None => { return Err(ConfigError::MissingUser); },
    };
    let d = match dbname {
        Some(d) => d,
        None => { return Err(ConfigError::MissingDbname); },
    };
    Ok(PoolConfig { host: h, user: u, dbname: d, max_size: POOL_MAX_SIZE })
}

/// What an acquisition request comes to: a handle, or a place in the queue.
#[derive(Debug, PartialEq, Eq, Structural, Clone, Copy)]
pub enum AcquireOutcome {
    /// The caller owns this handle exclusively until it releases it.
    Granted { handle: u64 },
    /// The pool is saturated; the caller waits until a handle is released.
    Suspended,
}

/// What becomes of a released handle.
#[derive(Debug, PartialEq, Eq, Structural, Clone, Copy)]
pub enum ReleaseOutcome {
    /// The handle passed directly to the first waiter in the queue.
    HandedTo { waiter: u64 },
    /// No one was waiting; the handle returned to the idle set.
    Idled,
}

/// What becomes of the pool when a broken handle is evicted.
#[derive(Debug, PartialEq, Eq, Structural, Clone, Copy)]
pub enum DiscardOutcome {
    /// The first waiter receives a freshly created handle in its place.
    Replaced { waiter: u64, fresh: u64 },
    /// No one was waiting; the capacity is simply freed.
    Removed,
}

/// The pool's bookkeeping state: which handles exist, which are idle, which
/// are checked out, and who is waiting. Handles are numbered in creation
/// order; callers are identified by the id they present when acquiring.
pub struct PoolModel {
    pub max_size: usize,
    pub next_handle: u64,
    pub idle: Vec<u64>,
    pub out: Vec<u64>,
    pub waiters: Vec<u64>,
}

impl PoolModel {
    /// Handles that exist right now, idle or checked out.
    pub open spec fn live(self) -> int {
        self.idle@.len() + self.out@.len() as int
    }

    /// No idle handle and no room to create one: an acquisition must wait.
    pub open spec fn saturated(self) -> bool {
        self.idle@.len() == 0 && self.live() == self.max_size
    }

    /// The pool invariant: the bound is respected, every handle id is unique
    /// and is either idle or checked out (never both), and callers queue only
    /// while the pool is saturated.
    pub open spec fn wf(self) -> bool {
        &&& self.max_size >= 1
        &&& self.live() <= self.max_size
        &&& (forall|i: int, j: int|
            0 <= i < j < self.idle@.len() ==> self.idle@[i] != self.idle@[j])
        &&& (forall|i: int, j: int| 0 <= i < j < self.out@.len() ==> self.out@[i] != self.out@[j])
        &&& (forall|i: int, j: int|
            0 <= i < self.idle@.len() && 0 <= j < self.out@.len() ==> self.idle@[i]
                != self.out@[j])
        &&& (forall|i: int| 0 <= i < self.idle@.len() ==> self.idle@[i] < self.next_handle)
        &&& (forall|i: int| 0 <= i < self.out@.len() ==> self.out@[i] < self.next_handle)
        &&& (self.waiters@.len() > 0 ==> self.saturated())
    }

    /// A pool as it stands right after construction: configured, but with no
    /// connection opened yet.
    pub open spec fn fresh(self, max_size: usize) -> bool {
        &&& self.max_size == max_size
        &&& self.next_handle == 0
        &&& self.idle@ =~= Seq::<u64>::empty()
        &&& self.out@ =~= Seq::<u64>::empty()
        &&& self.waiters@ =~= Seq::<u64>::empty()
    }

    /// Starts an empty pool. Handles are created lazily on acquisition, so
    /// this opens nothing.
    pub fn new(max_size: usize) -> (r: PoolModel)
        requires
            max_size >= 1,
        ensures
            r.wf(),
            r.fresh(max_size),
    {
        PoolModel {
            max_size,
            next_handle: 0,
            idle: Vec::new(),
            out: Vec::new(),
            waiters: Vec::new(),
        }
    }

    /// One caller asks for a handle. An idle handle is reused first; below the
    /// bound a fresh one is created; at the bound the caller is queued — it is
    /// suspended, never refused. The outcome is `Suspended` exactly when the
    /// pool was saturated.
    pub fn acquire(&mut self, caller: u64) -> (r: AcquireOutcome)
        requires
            old(self).wf(),
            old(self).next_handle < u64::MAX,
        ensures
            final(self).wf(),
            final(self).max_size == old(self).max_size,
            (r is Suspended) <==> old(self).saturated(),
            match r {
                AcquireOutcome::Granted { handle } => {
                    &&& final(self).out@ == old(self).out@.push(handle)
                    &&& !old(self).out@.contains(handle)
                    &&& final(self).waiters@ == old(self).waiters@
                    &&& if old(self).idle@.len() > 0 {
                        &&& handle == old(self).idle@.last()
                        &&& final(self).idle@ == old(self).idle@.drop_last()
                        &&& final(self).next_handle == old(self).next_handle
                    } else {
                        &&& handle == old(self).next_handle
                        &&& final(self).idle@ == old(self).idle@
                        &&& final(self).next_handle == old(self).next_handle + 1
                    }
                },
                AcquireOutcome::Suspended => {
                    &&& final(self).idle@ == old(self).idle@
                    &&& final(self).out@ == old(self).out@
                    &&& final(self).next_handle == old(self).next_handle
                    &&& final(self).waiters@ == old(self).waiters@.push(caller)
                },
            },
    {
        if self.idle.len() > 0 {
            let handle = self.idle.pop().unwrap();
            proof {
                assert(old(self).idle@.contains(handle)) by {
                    assert(old(self).idle@[old(self).idle@.len() - 1] == handle);
                }
                assert(!old(self).out@.contains(handle)) by {
                    if old(self).out@.contains(handle) {
                        let j = choose|j: int|
                            0 <= j < old(self).out@.len() && old(self).out@[j] == handle;
                        assert(old(self).idle@[old(self).idle@.len() - 1] != old(self).out@[j]);
                    }
                }
            }
            self.out.push(handle);
            AcquireOutcome::Granted { handle }
        } else if self.out.len() < self.max_size {
            let handle = self.next_handle;
            self.next_handle = self.next_handle + 1;
            proof {
                assert(!old(self).out@.contains(handle)) by {
                    if old(self).out@.contains(handle) {
                        let j = choose|j: int|
                            0 <= j < old(self).out@.len() && old(self).out@[j] == handle;
                        assert(old(self).out@[j] < old(self).next_handle);
                    }
                }
            }
            self.out.push(handle);
            AcquireOutcome::Granted { handle }
        } else {
            self.waiters.push(caller);
            AcquireOutcome::Suspended
        }
    }

    /// The exclusive owner gives a handle back. If anyone is waiting, the
    /// handle passes to the first waiter and to no one else; otherwise it
    /// rejoins the idle set, ready for the next acquisition.
    pub fn release(&mut self, handle: u64) -> (r: ReleaseOutcome)
        requires
            old(self).wf(),
            old(self).out@.contains(handle),
        ensures
            final(self).wf(),
            final(self).max_size == old(self).max_size,
            final(self).next_handle == old(self).next_handle,
            (r is HandedTo) <==> old(self).waiters@.len() > 0,
            match r {
                ReleaseOutcome::HandedTo { waiter } => {
                    &&& waiter == old(self).waiters@[0]
                    &&& final(self).waiters@ == old(self).waiters@.subrange(
                        1,
                        old(self).waiters@.len() as int,
                    )
                    &&& final(self).idle@ == old(self).idle@
                    &&& final(self).out@ == old(self).out@
                },
                ReleaseOutcome::Idled => {
                    &&& final(self).waiters@ == old(self).waiters@
                    &&& final(self).idle@ == old(self).idle@.push(handle)
                    &&& exists|k: int|
                        0 <= k < old(self).out@.len() && old(self).out@[k] == handle
                            && final(self).out@ == old(self).out@.remove(k)
                },
            },
    {
        if self.waiters.len() > 0 {
            let waiter = self.waiters.remove(0);
            ReleaseOutcome::HandedTo { waiter }
        } else {
            let ghost prev = self.out@;
            let mut k: usize = 0;
            while k < self.out.len() && self.out[k] != handle
                invariant
                    self == old(self),
                    0 <= k <= self.out@.len(),
                    forall|i: int| 0 <= i < k ==> self.out@[i] != handle,
                decreases self.out@.len() - k,
            {
                k = k + 1;
            }
            proof {
                if k >= self.out@.len() {
                    let j = choose|j: int|
                        0 <= j < old(self).out@.len() && old(self).out@[j] == handle;
                    assert(old(self).out@[j] != handle);
                }
            }
            self.out.remove(k);
            proof {
                assert(!prev.remove(k as int).contains(handle) && !old(self).idle@.contains(
                    handle,
                )) by {
                    assert forall|i: int| 0 <= i < prev.remove(k as int).len() implies prev.remove(
                        k as int,
                    )[i] != handle by {
                        if i < k {
                            assert(prev.remove(k as int)[i] == prev[i]);
                        } else {
                            assert(prev.remove(k as int)[i] == prev[i + 1]);
                        }
                    }
                    assert forall|i: int| 0 <= i < old(self).idle@.len() implies old(
                        self,
                    ).idle@[i] != handle by {
                        assert(old(self).idle@[i] != prev[k as int]);
                    }
                }
            }
            self.idle.push(handle);
            proof {
                assert(self.wf()) by {
                    lemma_remove_keeps_distinct(prev, k as int);
                    assert forall|i: int, j: int|
                        0 <= i < self.idle@.len() && 0 <= j < self.out@.len() implies self.idle@[i]
                        != self.out@[j] by {
                        if i < self.idle@.len() - 1 {
                            if j < k {
                                assert(self.out@[j] == prev[j]);
                            } else {
                                assert(self.out@[j] == prev[j + 1]);
                            }
                        } else {
                            assert(self.idle@[i] == handle);
                            assert(!prev.remove(k as int).contains(handle));
                        }
                    }
                    assert forall|i: int| 0 <= i < self.out@.len() implies self.out@[i]
                        < self.next_handle by {
                        if i < k {
                            assert(self.out@[i] == prev[i]);
                        } else {
                            assert(self.out@[i] == prev[i + 1]);
                        }
                    }
                }
            }
            ReleaseOutcome::Idled
        }
    }

    /// The pool evicts a handle its owner reports broken: the handle is
    /// closed and never rejoins the idle set. The freed capacity serves the
    /// first waiter at once — a fresh handle is created for it — so an
    /// eviction cannot starve the queue.
    pub fn discard_broken(&mut self, handle: u64) -> (r: DiscardOutcome)
        requires
            old(self).wf(),
            old(self).out@.contains(handle),
            old(self).next_handle < u64::MAX,
        ensures
            final(self).wf(),
            final(self).max_size == old(self).max_size,
            (r is Replaced) <==> old(self).waiters@.len() > 0,
            !final(self).idle@.contains(handle),
            !final(self).out@.contains(handle),
            match r {
                DiscardOutcome::Replaced { waiter, fresh } => {
                    &&& waiter == old(self).waiters@[0]
                    &&& final(self).waiters@ == old(self).waiters@.subrange(
                        1,
                        old(self).waiters@.len() as int,
                    )
                    &&& fresh == old(self).next_handle
                    &&& final(self).next_handle == old(self).next_handle + 1
                    &&& final(self).idle@ == old(self).idle@
                    &&& exists|k: int|
                        0 <= k < old(self).out@.len() && old(self).out@[k] == handle
                            && final(self).out@ == old(self).out@.remove(k).push(fresh)
                },
                DiscardOutcome::Removed => {
                    &&& final(self).waiters@ == old(self).waiters@
                    &&& final(self).next_handle == old(self).next_handle
                    &&& final(self).idle@ == old(self).idle@
                    &&& exists|k: int|
                        0 <= k < old(self).out@.len() && old(self).out@[k] == handle
                            && final(self).out@ == old(self).out@.remove(k)
                },
            },
    {
        let ghost prev = self.out@;
        let mut k: usize = 0;
        while k < self.out.len() && self.out[k] != handle
            invariant
                self == old(self),
                0 <= k <= self.out@.len(),
                forall|i: int| 0 <= i < k ==> self.out@[i] != handle,
            decreases self.out@.len() - k,
        {
            k = k + 1;
        }
        proof {
            if k >= self.out@.len() {
                let j = choose|j: int|
                    0 <= j < old(self).out@.len() && old(self).out@[j] == handle;
                assert(old(self).out@[j] != handle);
            }
        }
        self.out.remove(k);
        proof {
            lemma_remove_keeps_distinct(prev, k as int);
            assert(!prev.remove(k as int).contains(handle) && !old(self).idle@.contains(
                handle,
            )) by {
                assert forall|i: int| 0 <= i < prev.remove(k as int).len() implies prev.remove(
                    k as int,
                )[i] != handle by {
                    if i < k {
                        assert(prev.remove(k as int)[i] == prev[i]);
                    } else {
                        assert(prev.remove(k as int)[i] == prev[i + 1]);
                    }
                }
                assert forall|i: int| 0 <= i < old(self).idle@.len() implies old(
                    self,
                ).idle@[i] != handle by {
                    assert(old(self).idle@[i] != prev[k as int]);
                }
            }
            assert forall|i: int| 0 <= i < self.out@.len() implies self.out@[i]
                < self.next_handle by {
                if i < k {
                    assert(self.out@[i] == prev[i]);
                } else {
                    assert(self.out@[i] == prev[i + 1]);
                }
            }
        }
        if self.waiters.len() > 0 {
            let waiter = self.waiters.remove(0);
            let fresh = self.next_handle;
            self.next_handle = self.next_handle + 1;
            self.out.push(fresh);
            proof {
                let trimmed = prev.remove(k as int);
                assert forall|i: int, j: int|
                    0 <= i < j < self.out@.len() implies self.out@[i] != self.out@[j] by {
                    if j < self.out@.len() - 1 {
                        assert(trimmed[i] != trimmed[j]);
                    } else {
                        assert(self.out@[j] == fresh);
                        assert(trimmed[i] < fresh);
                    }
                }
                assert(!self.out@.contains(handle)) by {
                    assert forall|i: int| 0 <= i < self.out@.len() implies self.out@[i]
                        != handle by {
                        if i < self.out@.len() - 1 {
                            assert(!trimmed.contains(handle));
                            assert(self.out@[i] == trimmed[i]);
                        } else {
                            assert(self.out@[i] == fresh);
                            assert(handle < fresh);
                        }
                    }
                }
            }
            DiscardOutcome::Replaced { waiter, fresh }
        } else {
            proof {
                assert(!self.out@.contains(handle));
            }
            DiscardOutcome::Removed
        }
    }
}

/// The startup health check: build the pool, acquire one handle, release it.
/// For every well-formed configuration the acquisition is provably granted —
/// a fresh pool is never saturated — so the check cannot suspend, and the
/// handle it opened rejoins the idle set of the returned pool.
pub fn start_and_verify(cfg: &PoolConfig) -> (r: PoolModel)
    requires
        cfg.wf(),
    ensures
        r.wf(),
        r.max_size == cfg.max_size,
        r.next_handle == 1,
        r.idle@.len() == 1,
        r.out@.len() == 0,
        r.waiters@.len() == 0,
{
    let mut p = PoolModel::new(cfg.max_size);
    let outcome = p.acquire(0);
    match outcome {
        AcquireOutcome::Granted { handle } => {
            proof {
                assert(p.out@[0] == handle);
                assert(p.out@.contains(handle));
            }
            let rel = p.release(handle);
            p
        },
        AcquireOutcome::Suspended => {
            proof {
                assert(false);
            }
            p
        },
    }
}

/// A fresh pool is never saturated, so its first acquisition — the startup
/// health check — is granted rather than suspended.
pub proof fn lemma_fresh_pool_grants(p: PoolModel, max_size: usize)
    requires
        p.wf(),
        p.fresh(max_size),
    ensures
        !p.saturated(),
{
}

/// Once `max_size` handles are checked out the pool is saturated: a further
/// acquisition queues the caller (it suspends, it does not fail).
pub proof fn lemma_full_pool_is_saturated(p: PoolModel)
    requires
        p.wf(),
        p.out@.len() == p.max_size,
    ensures
        p.saturated(),
{
}

/// Removing one element of a sequence of pairwise-distinct elements leaves the
/// rest pairwise distinct.
proof fn lemma_remove_keeps_distinct(s: Seq<u64>, k: int)
    requires
        0 <= k < s.len(),
        forall|i: int, j: int| 0 <= i < j < s.len() ==> s[i] != s[j],
    ensures
        forall|i: int, j: int| 0 <= i < j < s.remove(k).len() ==> s.remove(k)[i] != s.remove(k)[j],
{
    assert forall|i: int, j: int| 0 <= i < j < s.remove(k).len() implies s.remove(k)[i] != s.remove(
        k,
    )[j] by {
        let i0: int = if i < k {
            i
        } else {
            i + 1
        };
        let j0: int = if j < k {
            j
        } else {
            j + 1
        };
        assert(s.remove(k)[i] == s[i0]);
        assert(s.remove(k)[j] == s[j0]);
        assert(s[i0] != s[j0]);
    }
}

} // verus!
