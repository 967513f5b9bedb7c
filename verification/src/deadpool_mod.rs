//! Starting the real connection pool and translating its errors.
//!
//! The pool itself is deadpool's: building it from the captured configuration
//! is synchronous and stands here, behind trusted declarations of what the
//! driver's calls do. Waiting on `get` is asynchronous work for the shell
//! around the library; the decision of what a failed acquisition means — a
//! recoverable `DatabaseConnection` error, never a crash — is made here.

use vstd::prelude::*;
use crate::pool::PoolConfig;

verus! {

/// The recoverable errors this library reports to a caller.
#[derive(Debug, PartialEq, Eq, Structural, Clone, Copy)]
pub enum LibError {
    /// A connection could not be had from the pool for this one request.
    DatabaseConnection,
}

#[verifier::external_type_specification]
#[verifier::external_body]
pub struct ExPgError(tokio_postgres::Error);

/// The live deadpool pool, held opaquely: its bound-type generics name a
/// driver trait that cannot be declared here, so the pool travels inside this
/// carrier. The shell around the library reaches the pool through `inner`.
#[verifier::external_body]
pub struct DbPool {
    pub inner: deadpool_postgres::Pool,
}

#[verifier::external_type_specification]
#[verifier::external_body]
#[verifier::reject_recursive_types(E)]
pub struct ExPoolError<E>(deadpool::managed::PoolError<E>);

/// The bound a pool was built with.
pub uninterp spec fn pool_cap(p: DbPool) -> nat;

/// The host a pool's connections are configured for.
pub uninterp spec fn pool_host(p: DbPool) -> Seq<char>;

/// The user a pool's connections log in as.
pub uninterp spec fn pool_user(p: DbPool) -> Seq<char>;

/// The database a pool's connections open.
pub uninterp spec fn pool_dbname(p: DbPool) -> Seq<char>;

/// Whether a released connection rejoins the pool without a reset round trip.
pub uninterp spec fn pool_fast_recycling(p: DbPool) -> bool;

/// Whether the pool's connections run without TLS.
pub uninterp spec fn pool_plain_transport(p: DbPool) -> bool;

/// Relies on tokio_postgres::Config (new, then host/user/dbname, each of
/// which records its parameter), deadpool_postgres::Manager::from_config
/// (a manager over exactly that configuration, plain transport, the chosen
/// recycling method), and deadpool::managed::Pool::builder /
/// PoolBuilder::max_size / PoolBuilder::build: the built pool holds these
/// parameters, stores `max_size` as its bound, and opens no connection.
/// `build` fails only when a timeout is configured without a runtime, and
/// none is configured here, so it cannot fail; the bound must stay within
/// tokio's semaphore limit, whose constructor refuses more than
/// `usize::MAX >> 3` permits.
#[verifier::external_body]
fn build_pool(host: &str, user: &str, dbname: &str, fast_recycling: bool, max_size: usize) -> (r:
    DbPool)
    requires
        max_size <= usize::MAX / 8,
    ensures
        pool_cap(r) == max_size,
        pool_host(r) == host@,
        pool_user(r) == user@,
        pool_dbname(r) == dbname@,
        pool_fast_recycling(r) == fast_recycling,
        pool_plain_transport(r),
{
    let mut cfg = tokio_postgres::Config::new();
    cfg.host(host);
    cfg.user(user);
    cfg.dbname(dbname);
    let method = if fast_recycling {
        deadpool_postgres::RecyclingMethod::Fast
    } else {
        deadpool_postgres::RecyclingMethod::Verified
    };
    let mgr_config = deadpool_postgres::ManagerConfig { recycling_method: method };
    let mgr = deadpool_postgres::Manager::from_config(cfg, tokio_postgres::NoTls, mgr_config);
    let builder = deadpool_postgres::Pool::builder(mgr).max_size(max_size);
    let pool = builder.build().expect("within the semaphore limit and without timeouts, the build cannot fail");
    DbPool { inner: pool }
}

/// Relies on deadpool::managed::Pool::status: reports the pool's current
/// bound. That starts as the built one, but deadpool's own `resize` and
/// `close` can change it through a shared reference, so nothing is claimed
/// of the result.
#[verifier::external_body]
fn pool_status_max(p: &DbPool) -> usize {
    p.inner.status().max_size
}

/// Builds the pool for a captured configuration: exactly its host, user and
/// database name, the fast recycling policy, no TLS, and the configured
/// bound. No connection is opened; whether the parameters reach a live
/// database is the startup health check's question, not this one's. The
/// bound must fit the driver's machine limit on permits.
pub fn start_pool(cfg: &PoolConfig) -> (r: DbPool)
    requires
        cfg.wf(),
        cfg.max_size <= usize::MAX / 8,
    ensures
        pool_cap(r) == cfg.max_size,
        pool_host(r) == cfg.host@,
        pool_user(r) == cfg.user@,
        pool_dbname(r) == cfg.dbname@,
        pool_fast_recycling(r),
        pool_plain_transport(r),
{
    build_pool(cfg.host.as_str(), cfg.user.as_str(), cfg.dbname.as_str(), true, cfg.max_size)
}

/// The bound deadpool currently reports for the pool: the built one, unless
/// the shell has resized or closed the pool since.
pub fn pool_max_size(p: &DbPool) -> usize {
    pool_status_max(p)
}

/// What a failed acquisition means to a caller: every pool error — timeout,
/// backend failure, closed pool — becomes the one recoverable
/// `DatabaseConnection` kind, reported as a value rather than a crash.
pub fn map_pool_error(e: deadpool_postgres::PoolError) -> (r: LibError)
    ensures
        r == LibError::DatabaseConnection,
{
    let _ = e;
    LibError::DatabaseConnection
}

} // verus!
