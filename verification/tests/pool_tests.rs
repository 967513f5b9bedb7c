use pool_bridge::deadpool_mod::{map_pool_error, pool_max_size, start_pool, LibError};
use pool_bridge::pool::{
    config_from_env, start_and_verify, AcquireOutcome, ConfigError, DiscardOutcome, PoolModel,
    ReleaseOutcome, POOL_MAX_SIZE,
};

fn full_config() -> pool_bridge::pool::PoolConfig {
    config_from_env(
        Some("localhost".to_string()),
        Some("app".to_string()),
        Some("appdb".to_string()),
    )
    .unwrap()
}

#[test]
fn config_from_full_environment() {
    let cfg = full_config();
    assert_eq!(cfg.host, "localhost");
    assert_eq!(cfg.user, "app");
    assert_eq!(cfg.dbname, "appdb");
    assert_eq!(cfg.max_size, POOL_MAX_SIZE);
    assert_eq!(cfg.max_size, 16);
}

#[test]
fn config_missing_host_is_rejected() {
    let r = config_from_env(None, Some("app".to_string()), Some("appdb".to_string()));
    assert_eq!(r.err(), Some(ConfigError::MissingHost));
}

#[test]
fn config_missing_user_is_rejected() {
    let r = config_from_env(Some("localhost".to_string()), None, Some("appdb".to_string()));
    assert_eq!(r.err(), Some(ConfigError::MissingUser));
}

#[test]
fn config_missing_dbname_is_rejected() {
    let r = config_from_env(Some("localhost".to_string()), Some("app".to_string()), None);
    assert_eq!(r.err(), Some(ConfigError::MissingDbname));
}

#[test]
fn fresh_pool_grants_lazily() {
    let mut p = PoolModel::new(2);
    assert_eq!(p.acquire(1), AcquireOutcome::Granted { handle: 0 });
    assert_eq!(p.acquire(2), AcquireOutcome::Granted { handle: 1 });
    assert_eq!(p.out.len(), 2);
    assert_eq!(p.idle.len(), 0);
}

#[test]
fn saturated_pool_suspends_instead_of_failing() {
    let mut p = PoolModel::new(2);
    let a = p.acquire(1);
    let b = p.acquire(2);
    assert!(matches!(a, AcquireOutcome::Granted { .. }));
    assert!(matches!(b, AcquireOutcome::Granted { .. }));
    assert_eq!(p.acquire(3), AcquireOutcome::Suspended);
    assert_eq!(p.acquire(4), AcquireOutcome::Suspended);
    assert_eq!(p.waiters, vec![3, 4]);
}

#[test]
fn release_hands_to_exactly_the_first_waiter() {
    let mut p = PoolModel::new(1);
    assert_eq!(p.acquire(1), AcquireOutcome::Granted { handle: 0 });
    assert_eq!(p.acquire(2), AcquireOutcome::Suspended);
    assert_eq!(p.acquire(3), AcquireOutcome::Suspended);
    assert_eq!(p.release(0), ReleaseOutcome::HandedTo { waiter: 2 });
    assert_eq!(p.waiters, vec![3]);
    assert_eq!(p.release(0), ReleaseOutcome::HandedTo { waiter: 3 });
    assert_eq!(p.waiters, Vec::<u64>::new());
}

#[test]
fn released_handle_goes_idle_when_nobody_waits() {
    let mut p = PoolModel::new(2);
    assert_eq!(p.acquire(1), AcquireOutcome::Granted { handle: 0 });
    assert_eq!(p.release(0), ReleaseOutcome::Idled);
    assert_eq!(p.idle, vec![0]);
    assert_eq!(p.out.len(), 0);
    assert_eq!(p.acquire(2), AcquireOutcome::Granted { handle: 0 });
}

#[test]
fn waiter_resolves_before_later_callers() {
    let mut p = PoolModel::new(1);
    let a = p.acquire(10);
    assert_eq!(a, AcquireOutcome::Granted { handle: 0 });
    assert_eq!(p.acquire(20), AcquireOutcome::Suspended);
    assert_eq!(p.release(0), ReleaseOutcome::HandedTo { waiter: 20 });
    assert_eq!(p.acquire(30), AcquireOutcome::Suspended);
    assert_eq!(p.release(0), ReleaseOutcome::HandedTo { waiter: 30 });
}

#[test]
fn broken_handle_is_replaced_for_the_first_waiter() {
    let mut p = PoolModel::new(1);
    assert_eq!(p.acquire(1), AcquireOutcome::Granted { handle: 0 });
    assert_eq!(p.acquire(2), AcquireOutcome::Suspended);
    assert_eq!(p.discard_broken(0), DiscardOutcome::Replaced { waiter: 2, fresh: 1 });
    assert_eq!(p.idle, Vec::<u64>::new());
    assert_eq!(p.out, vec![1]);
}

#[test]
fn broken_handle_never_rejoins_idle() {
    let mut p = PoolModel::new(2);
    assert_eq!(p.acquire(1), AcquireOutcome::Granted { handle: 0 });
    assert_eq!(p.discard_broken(0), DiscardOutcome::Removed);
    assert_eq!(p.idle, Vec::<u64>::new());
    assert_eq!(p.out, Vec::<u64>::new());
    assert_eq!(p.acquire(2), AcquireOutcome::Granted { handle: 1 });
}

#[test]
fn startup_health_check_succeeds_on_valid_config() {
    let cfg = full_config();
    let p = start_and_verify(&cfg);
    assert_eq!(p.max_size, 16);
    assert_eq!(p.idle.len(), 1);
    assert_eq!(p.out.len(), 0);
    assert_eq!(p.waiters.len(), 0);
    let mut p = p;
    assert!(matches!(p.acquire(1), AcquireOutcome::Granted { .. }));
    assert_eq!(p.release(0), ReleaseOutcome::Idled);
}

#[test]
fn real_pool_builds_with_configured_bound() {
    let cfg = full_config();
    let pool = start_pool(&cfg);
    assert_eq!(pool_max_size(&pool), 16);
}

#[test]
fn every_pool_error_becomes_database_connection() {
    let closed: deadpool_postgres::PoolError = deadpool_postgres::PoolError::Closed;
    assert_eq!(map_pool_error(closed), LibError::DatabaseConnection);
    let timeout: deadpool_postgres::PoolError =
        deadpool_postgres::PoolError::Timeout(deadpool_postgres::TimeoutType::Wait);
    assert_eq!(map_pool_error(timeout), LibError::DatabaseConnection);
}
