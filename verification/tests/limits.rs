use construct_relay::addr::IpAddr;
use construct_relay::admission::{screen, screen_at, Admission};
use construct_relay::config::{
    AUTH_FAIL_COOLDOWN_NANOS, AUTH_FAIL_ENTRY_TTL_NANOS, AUTH_FAIL_THRESHOLD,
};
use construct_relay::ratelimit::{try_acquire, AuthFailTable, ConnTable};

const A: IpAddr = IpAddr::V4(0x0a00_0001);
const B: IpAddr = IpAddr::V6(0x0a00_0001);

#[test]
fn slots_run_out_at_the_limit() {
    let mut table = ConnTable::new();
    let first = try_acquire(&mut table, A, 2);
    let second = try_acquire(&mut table, A, 2);
    assert!(first.is_some());
    assert!(second.is_some());
    assert!(try_acquire(&mut table, A, 2).is_none());
    assert!(try_acquire(&mut table, B, 2).is_some());
    first.unwrap().release(&mut table);
    assert!(try_acquire(&mut table, A, 2).is_some());
    assert!(try_acquire(&mut table, A, 2).is_none());
}

#[test]
fn zero_limit_grants_nothing() {
    let mut table = ConnTable::new();
    assert!(try_acquire(&mut table, A, 0).is_none());
    assert!(try_acquire(&mut table, A, 0).is_none());
    assert!(try_acquire(&mut table, A, 1).is_some());
    assert!(try_acquire(&mut table, A, 1).is_none());
}

#[test]
fn released_slots_come_back() {
    let mut table = ConnTable::new();
    for _ in 0..100 {
        let guard = try_acquire(&mut table, A, 1).unwrap();
        assert!(try_acquire(&mut table, A, 1).is_none());
        guard.release(&mut table);
    }
}

#[test]
fn threshold_starts_cooldown() {
    let mut table = AuthFailTable::new();
    assert_eq!(AUTH_FAIL_THRESHOLD, 3);
    assert!(!table.is_blocked_at(A, 0));
    assert!(!table.record_failure_at(A, 10));
    assert!(!table.is_blocked_at(A, 10));
    assert!(!table.record_failure_at(A, 20));
    assert!(!table.is_blocked_at(A, 20));
    assert!(table.record_failure_at(A, 30));
    assert!(table.is_blocked_at(A, 30));
    assert!(table.is_blocked_at(A, 30 + AUTH_FAIL_COOLDOWN_NANOS - 1));
    assert!(!table.is_blocked_at(B, 30));
}

#[test]
fn cooldown_ends_and_count_starts_over() {
    let mut table = AuthFailTable::new();
    for _ in 0..3 {
        table.record_failure_at(A, 0);
    }
    assert_eq!(table.failure_count(A), 3);
    assert!(!table.is_blocked_at(A, AUTH_FAIL_COOLDOWN_NANOS));
    assert_eq!(table.failure_count(A), 0);
    let later = AUTH_FAIL_COOLDOWN_NANOS;
    assert!(!table.record_failure_at(A, later));
    assert!(!table.record_failure_at(A, later));
    assert!(!table.is_blocked_at(A, later));
    assert!(table.record_failure_at(A, later));
    assert!(table.is_blocked_at(A, later));
}

#[test]
fn failures_after_cooldown_block_again_without_a_look() {
    let second: u128 = 1_000_000_000;
    let mut table = AuthFailTable::new();
    for _ in 0..3 {
        table.record_failure_at(A, 0);
    }
    assert!(!table.record_failure_at(A, 90_000 * second));
    assert_eq!(table.failure_count(A), 1);
    assert!(!table.record_failure_at(A, 90_000 * second));
    assert!(table.record_failure_at(A, 90_000 * second));
    assert!(table.is_blocked_at(A, 90_001 * second));
    assert!(table.is_blocked_at(A, 90_000 * second + AUTH_FAIL_COOLDOWN_NANOS - 1));
    assert!(!table.is_blocked_at(A, 90_000 * second + AUTH_FAIL_COOLDOWN_NANOS));
}

#[test]
fn failure_at_the_end_of_cooldown_is_the_first() {
    let mut table = AuthFailTable::new();
    for _ in 0..3 {
        table.record_failure_at(A, 0);
    }
    table.record_failure_at(A, AUTH_FAIL_COOLDOWN_NANOS - 1);
    assert_eq!(table.failure_count(A), 4);
    table.record_failure_at(A, AUTH_FAIL_COOLDOWN_NANOS);
    assert_eq!(table.failure_count(A), 1);
}

#[test]
fn failures_count_per_address() {
    let mut table = AuthFailTable::new();
    table.record_failure_at(A, 0);
    table.record_failure_at(A, 0);
    table.record_failure_at(B, 0);
    table.record_failure_at(B, 0);
    assert!(!table.is_blocked_at(A, 1));
    assert!(!table.is_blocked_at(B, 1));
    assert!(table.record_failure_at(B, 1));
    assert!(!table.is_blocked_at(A, 1));
    assert_eq!(table.failure_count(A), 2);
}

#[test]
fn failures_in_cooldown_do_not_extend_it() {
    let mut table = AuthFailTable::new();
    for _ in 0..3 {
        table.record_failure_at(A, 0);
    }
    assert!(!table.record_failure_at(A, 1000));
    assert_eq!(table.failure_count(A), 4);
    assert!(table.is_blocked_at(A, AUTH_FAIL_COOLDOWN_NANOS - 1));
    assert!(!table.is_blocked_at(A, AUTH_FAIL_COOLDOWN_NANOS));
}

#[test]
fn cleanup_forgets_expired_and_stale_entries() {
    let mut table = AuthFailTable::new();
    for _ in 0..3 {
        table.record_failure_at(A, 5);
    }
    table.record_failure_at(B, 7);
    table.cleanup_at(6 + AUTH_FAIL_ENTRY_TTL_NANOS);
    assert_eq!(table.failure_count(A), 0);
    assert_eq!(table.failure_count(B), 1);
    table.cleanup_at(7 + AUTH_FAIL_ENTRY_TTL_NANOS);
    assert_eq!(table.failure_count(B), 0);
}

#[test]
fn cleanup_of_young_entries_keeps_counting() {
    let mut table = AuthFailTable::new();
    table.record_failure_at(A, 0);
    table.cleanup_at(1);
    table.record_failure_at(A, AUTH_FAIL_ENTRY_TTL_NANOS - 1);
    table.cleanup_at(AUTH_FAIL_ENTRY_TTL_NANOS - 1);
    assert_eq!(table.failure_count(A), 2);
    assert!(table.record_failure_at(A, 2 * AUTH_FAIL_ENTRY_TTL_NANOS));
}

#[test]
fn cleanup_of_stale_entries_starts_the_count_over() {
    let mut table = AuthFailTable::new();
    table.record_failure_at(A, 0);
    table.record_failure_at(A, AUTH_FAIL_ENTRY_TTL_NANOS - 1);
    table.cleanup_at(AUTH_FAIL_ENTRY_TTL_NANOS);
    assert!(!table.record_failure_at(A, AUTH_FAIL_ENTRY_TTL_NANOS));
    assert_eq!(table.failure_count(A), 1);
}

#[test]
fn cleanup_keeps_running_cooldowns() {
    let mut table = AuthFailTable::new();
    table.record_failure_at(A, 0);
    table.record_failure_at(A, 0);
    table.record_failure_at(A, 100);
    let now = AUTH_FAIL_ENTRY_TTL_NANOS + 50;
    table.cleanup_at(now);
    assert!(table.is_blocked_at(A, now));
}

#[test]
fn cleanup_before_entry_was_made_keeps_it() {
    let mut table = AuthFailTable::new();
    table.record_failure_at(A, 100);
    table.cleanup_at(50);
    assert_eq!(table.failure_count(A), 1);
}

#[test]
fn table_reads_its_own_clock() {
    let mut table = AuthFailTable::new();
    assert!(!table.is_blocked(A));
    assert!(!table.record_failure(A));
    assert!(!table.record_failure(A));
    table.cleanup();
    assert_eq!(table.failure_count(A), 2);
    assert!(table.record_failure(A));
    assert!(table.is_blocked(A));
    table.cleanup();
    assert!(table.is_blocked(A));
}

#[test]
fn trusted_proxies_bypass_every_limit() {
    let mut fails = AuthFailTable::new();
    let mut conns = ConnTable::new();
    for _ in 0..3 {
        fails.record_failure_at(A, 0);
    }
    let proxies = [(A, 32)];
    assert!(matches!(
        screen_at(A, &proxies, &mut fails, &mut conns, 0, 1),
        Admission::Trusted
    ));
    assert_eq!(fails.failure_count(A), 3);
    assert!(matches!(
        screen_at(A, &[], &mut fails, &mut conns, 5, 1),
        Admission::Blocked
    ));
}

#[test]
fn strangers_are_limited() {
    let mut fails = AuthFailTable::new();
    let mut conns = ConnTable::new();
    let first = screen_at(A, &[], &mut fails, &mut conns, 1, 0);
    assert!(matches!(first, Admission::Admitted(_)));
    assert!(matches!(
        screen_at(A, &[], &mut fails, &mut conns, 1, 0),
        Admission::OverLimit
    ));
    if let Admission::Admitted(guard) = first {
        guard.release(&mut conns);
    }
    assert!(matches!(
        screen_at(A, &[], &mut fails, &mut conns, 1, 0),
        Admission::Admitted(_)
    ));
}

#[test]
fn expired_cooldown_lets_in_again() {
    let mut fails = AuthFailTable::new();
    let mut conns = ConnTable::new();
    for _ in 0..3 {
        fails.record_failure_at(A, 0);
    }
    assert!(matches!(
        screen_at(A, &[], &mut fails, &mut conns, 1, AUTH_FAIL_COOLDOWN_NANOS),
        Admission::Admitted(_)
    ));
    assert_eq!(fails.failure_count(A), 0);
}

#[test]
fn screening_reads_the_clock() {
    let mut fails = AuthFailTable::new();
    let mut conns = ConnTable::new();
    assert!(matches!(
        screen(A, &[], &mut fails, &mut conns, 1),
        Admission::Admitted(_)
    ));
    for _ in 0..3 {
        fails.record_failure(B);
    }
    assert!(matches!(
        screen(B, &[], &mut fails, &mut conns, 1),
        Admission::Blocked
    ));
}
