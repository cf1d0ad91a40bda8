//! Per-address limits: concurrent connections and failed authentications.

use std::time::Instant;
use vstd::multiset::Multiset;
use vstd::prelude::*;

use crate::addr::IpAddr;
use crate::clock;
use crate::config::{AUTH_FAIL_COOLDOWN_NANOS, AUTH_FAIL_ENTRY_TTL_NANOS, AUTH_FAIL_THRESHOLD};
use crate::ipmap::IpMap;

verus! {

// ---------------------------------------------------------------------------
// Concurrent connections
// ---------------------------------------------------------------------------

/// How many connections each address holds.
pub struct ConnTable {
    counts: IpMap<usize>,
}

impl View for ConnTable {
    type V = Map<IpAddr, usize>;

    closed spec fn view(&self) -> Map<IpAddr, usize> {
        self.counts@
    }
}

/// One connection slot of an address. It goes back with `release`.
pub struct ConnGuard {
    ip: IpAddr,
}

impl View for ConnGuard {
    type V = IpAddr;

    closed spec fn view(&self) -> IpAddr {
        self.ip
    }
}

/// The number of connections that the table counts for `ip`.
pub open spec fn held(t: Map<IpAddr, usize>, ip: IpAddr) -> nat {
    if t.contains_key(ip) {
        t[ip] as nat
    } else {
        0
    }
}

/// The table once a slot was asked for: the count grows where it is below
/// `max`, and there is an entry either way.
pub open spec fn acquired(t: Map<IpAddr, usize>, ip: IpAddr, max: usize) -> Map<IpAddr, usize> {
    if held(t, ip) < max {
        t.insert(ip, (held(t, ip) + 1) as usize)
    } else {
        t.insert(ip, held(t, ip) as usize)
    }
}

/// The table once a slot came back. The last one takes the entry with it.
pub open spec fn released(t: Map<IpAddr, usize>, ip: IpAddr) -> Map<IpAddr, usize> {
    if !t.contains_key(ip) {
        t
    } else if t[ip] <= 1 {
        t.remove(ip)
    } else {
        t.insert(ip, (t[ip] - 1) as usize)
    }
}

impl ConnTable {
    /// A table without connections.
    pub fn new() -> (t: Self)
        ensures
            t@ == Map::<IpAddr, usize>::empty(),
    {
        ConnTable { counts: IpMap::new() }
    }
}

/// Takes a connection slot for `ip`, or `None` where `max` are taken.
pub fn try_acquire(table: &mut ConnTable, ip: IpAddr, max: usize) -> (r: Option<ConnGuard>)
    ensures
        r is Some <==> held(old(table)@, ip) < max,
        r matches Some(guard) ==> guard@ == ip,
        final(table)@ == acquired(old(table)@, ip, max),
{
    let count: usize = match table.counts.get(ip) {
        Some(n) => n,
        None => 0,
    };
    if count >= max {
        table.counts.insert(ip, count);
        return None;
    }
    table.counts.insert(ip, count + 1);
    Some(ConnGuard { ip })
}

impl ConnGuard {
    /// Gives the slot back.
    pub fn release(self, table: &mut ConnTable)
        ensures
            final(table)@ == released(old(table)@, self@),
    {
        match table.counts.get(self.ip) {
            Some(n) => {
                if n <= 1 {
                    table.counts.remove(self.ip);
                } else {
                    table.counts.insert(self.ip, n - 1);
                }
            },
            None => {},
        }
    }
}

/// A slot that was granted and given back leaves every count as it was, and
/// the whole table where it held no empty entry of that address.
pub proof fn law_release_undoes_acquire(
    t: Map<IpAddr, usize>,
    ip: IpAddr,
    max: usize,
    other: IpAddr,
)
    requires
        held(t, ip) < max,
    ensures
        held(released(acquired(t, ip, max), ip), other) == held(t, other),
        (t.contains_key(ip) ==> t[ip] > 0) ==> released(acquired(t, ip, max), ip) == t,
{
    if t.contains_key(ip) ==> t[ip] > 0 {
        assert(released(acquired(t, ip, max), ip) =~= t);
    }
}

/// The table after `n` slots in a row were asked for.
pub open spec fn acquired_in_a_row(
    t: Map<IpAddr, usize>,
    ip: IpAddr,
    max: usize,
    n: nat,
) -> Map<IpAddr, usize>
    decreases n,
{
    if n == 0 {
        t
    } else {
        acquired(acquired_in_a_row(t, ip, max, (n - 1) as nat), ip, max)
    }
}

/// An address without connections is granted exactly as many slots in a row as
/// the limit allows: the count grows by one with each until it is reached, and
/// stays there. No other address is counted.
pub proof fn law_limit_is_granted_in_full(
    t: Map<IpAddr, usize>,
    ip: IpAddr,
    max: usize,
    n: nat,
    other: IpAddr,
)
    requires
        !t.contains_key(ip),
        ip != other,
    ensures
        held(acquired_in_a_row(t, ip, max, n), ip) == (if n < max {
            n
        } else {
            max as nat
        }),
        held(acquired_in_a_row(t, ip, max, n), other) == held(t, other),
    decreases n,
{
    if n > 0 {
        law_limit_is_granted_in_full(t, ip, max, (n - 1) as nat, other);
    }
}

/// A slot is granted exactly while the address holds fewer than the limit, and
/// then its count grows by one; given back, it falls by one. What is counted is
/// the number in the table, and no address but this one is touched.
pub proof fn law_slots_count_one_by_one(
    t: Map<IpAddr, usize>,
    ip: IpAddr,
    max: usize,
    other: IpAddr,
)
    requires
        ip != other,
    ensures
        t.contains_key(ip) ==> held(t, ip) == t[ip],
        !t.contains_key(ip) ==> held(t, ip) == 0,
        held(t, ip) < max ==> held(acquired(t, ip, max), ip) == held(t, ip) + 1,
        held(t, ip) >= max ==> held(acquired(t, ip, max), ip) == held(t, ip),
        held(t, ip) > 0 ==> held(released(t, ip), ip) == held(t, ip) - 1,
        held(t, ip) == 0 ==> held(released(t, ip), ip) == 0,
        held(t, ip) <= 1 ==> !released(t, ip).contains_key(ip),
        acquired(t, ip, max).remove(ip) == t.remove(ip),
        released(t, ip).remove(ip) == t.remove(ip),
{
    assert(acquired(t, ip, max).remove(ip) =~= t.remove(ip));
    assert(released(t, ip).remove(ip) =~= t.remove(ip));
}

/// A refused slot changes no count.
pub proof fn law_refusal_changes_no_count(
    t: Map<IpAddr, usize>,
    ip: IpAddr,
    max: usize,
    other: IpAddr,
)
    requires
        held(t, ip) >= max,
    ensures
        held(acquired(t, ip, max), other) == held(t, other),
{
}

/// What can happen to the table.
pub enum ConnOp {
    Acquire(IpAddr),
    Release(IpAddr),
}

/// The table and the guards that are out, after some operations from the start.
pub struct ConnRun {
    pub table: Map<IpAddr, usize>,
    pub guards: Multiset<IpAddr>,
}

/// One operation. A guard goes out where the slot is granted and comes back
/// with its release.
pub open spec fn conn_step(s: ConnRun, op: ConnOp, max: usize) -> ConnRun {
    match op {
        ConnOp::Acquire(ip) => ConnRun {
            table: acquired(s.table, ip, max),
            guards: if held(s.table, ip) < max {
                s.guards.insert(ip)
            } else {
                s.guards
            },
        },
        ConnOp::Release(ip) => ConnRun {
            table: released(s.table, ip),
            guards: s.guards.remove(ip),
        },
    }
}

pub open spec fn conn_run(ops: Seq<ConnOp>, max: usize) -> ConnRun
    decreases ops.len(),
{
    if ops.len() == 0 {
        ConnRun { table: Map::empty(), guards: Multiset::empty() }
    } else {
        conn_step(conn_run(ops.drop_last(), max), ops.last(), max)
    }
}

/// Only guards that are out come back.
pub open spec fn releases_are_owed(ops: Seq<ConnOp>, max: usize) -> bool {
    forall|i: int|
        0 <= i < ops.len() ==> ((#[trigger] ops[i]) matches ConnOp::Release(ip) ==> conn_run(
            ops.take(i),
            max,
        ).guards.count(ip) > 0)
}

/// After any operations the table counts, for every address, exactly the
/// guards that are out, and these are never more than the limit.
pub proof fn law_counts_are_guards_within_limit(ops: Seq<ConnOp>, max: usize, ip: IpAddr)
    requires
        releases_are_owed(ops, max),
    ensures
        held(conn_run(ops, max).table, ip) == conn_run(ops, max).guards.count(ip),
        held(conn_run(ops, max).table, ip) <= max,
    decreases ops.len(),
{
    if ops.len() > 0 {
        let before = ops.drop_last();
        assert forall|i: int| 0 <= i < before.len() implies ((#[trigger] before[i]) matches
            ConnOp::Release(a) ==> conn_run(before.take(i), max).guards.count(a) > 0) by {
            assert(before[i] == ops[i]);
            assert(before.take(i) =~= ops.take(i));
        }
        law_counts_are_guards_within_limit(before, max, ip);
        assert(ops.take(ops.len() - 1) =~= before);
        assert(ops[ops.len() - 1] == ops.last());
    }
}

// ---------------------------------------------------------------------------
// Failed authentications
// ---------------------------------------------------------------------------

/// What is kept of an address that failed to authenticate. Times are readings
/// of one monotonic counter, in nanoseconds.
#[derive(Clone, Copy, Debug)]
pub struct FailEntry {
    /// When the entry was made.
    pub created_at: u128,
    /// Failures since then.
    pub count: usize,
    /// The address is blocked before this time.
    pub cooldown_until: Option<u128>,
}

/// Cumulative failure counts per address. An address that reaches the
/// threshold is blocked for the cooldown; its count starts over afterwards.
pub struct AuthFailTable {
    start: Instant,
    entries: IpMap<FailEntry>,
}

impl View for AuthFailTable {
    type V = Map<IpAddr, FailEntry>;

    closed spec fn view(&self) -> Map<IpAddr, FailEntry> {
        self.entries@
    }
}

/// Every entry counts at least one failure, and an address has a cooldown
/// exactly when it reached the threshold.
pub open spec fn sound(t: Map<IpAddr, FailEntry>) -> bool {
    forall|ip: IpAddr| #[trigger]
        t.contains_key(ip) ==> t[ip].count >= 1 && (t[ip].cooldown_until is Some <==> t[ip].count
            >= AUTH_FAIL_THRESHOLD)
}

/// The failures counted for `ip`.
pub open spec fn failures(t: Map<IpAddr, FailEntry>, ip: IpAddr) -> nat {
    if t.contains_key(ip) {
        t[ip].count as nat
    } else {
        0
    }
}

/// `ip` is in cooldown.
pub open spec fn blocked(t: Map<IpAddr, FailEntry>, ip: IpAddr, now: u128) -> bool {
    t.contains_key(ip) && (t[ip].cooldown_until matches Some(until) && now < until)
}

/// The table after `ip` was looked up: an expired cooldown takes the entry with it.
pub open spec fn looked_up(t: Map<IpAddr, FailEntry>, ip: IpAddr, now: u128) -> Map<
    IpAddr,
    FailEntry,
> {
    if t.contains_key(ip) && (t[ip].cooldown_until matches Some(until) && until <= now) {
        t.remove(ip)
    } else {
        t
    }
}

/// One more failure in the entry of `ip` puts it into cooldown.
pub open spec fn newly_blocked(t: Map<IpAddr, FailEntry>, ip: IpAddr) -> bool {
    failures(t, ip) + 1 >= AUTH_FAIL_THRESHOLD && (t.contains_key(ip) ==> t[ip].cooldown_until
        is None)
}

/// The table with one more failure in the entry of `ip`.
pub open spec fn failed(t: Map<IpAddr, FailEntry>, ip: IpAddr, now: u128) -> Map<
    IpAddr,
    FailEntry,
> {
    t.insert(
        ip,
        FailEntry {
            created_at: if t.contains_key(ip) {
                t[ip].created_at
            } else {
                now
            },
            count: (failures(t, ip) + 1) as usize,
            cooldown_until: if newly_blocked(t, ip) {
                Some((now + AUTH_FAIL_COOLDOWN_NANOS) as u128)
            } else if t.contains_key(ip) {
                t[ip].cooldown_until
            } else {
                None
            },
        },
    )
}

/// The table after `ip` failed at `now`. An expired cooldown is forgotten first,
/// so that the failure counts afresh.
pub open spec fn recorded(t: Map<IpAddr, FailEntry>, ip: IpAddr, now: u128) -> Map<
    IpAddr,
    FailEntry,
> {
    failed(looked_up(t, ip, now), ip, now)
}

/// The entry is still of use: its cooldown runs, or it has none and is young.
pub open spec fn is_live(e: FailEntry, now: u128) -> bool {
    match e.cooldown_until {
        Some(until) => now < until,
        None => now - e.created_at < AUTH_FAIL_ENTRY_TTL_NANOS,
    }
}

/// The table without the entries that are of no use any more.
pub open spec fn purged(t: Map<IpAddr, FailEntry>, now: u128) -> Map<IpAddr, FailEntry> {
    Map::new(|ip: IpAddr| t.contains_key(ip) && is_live(t[ip], now), |ip: IpAddr| t[ip])
}

impl AuthFailTable {
    /// The monotonic reading that the table's times are counted from.
    pub closed spec fn start(self) -> Instant {
        self.start
    }

    /// A table without failures.
    pub fn new() -> (t: Self)
        ensures
            t@ == Map::<IpAddr, FailEntry>::empty(),
            sound(t@),
    {
        AuthFailTable { start: Instant::now(), entries: IpMap::new() }
    }

    /// Reads the clock that the table's times refer to.
    pub(crate) fn now(&self) -> (now: u128)
        ensures
            exists|reading: Instant|
                call_ensures(Instant::now, (), reading) && now == #[trigger] clock::nanos_between(
                    self.start(),
                    reading,
                ),
            now < clock::nanos_limit(),
    {
        assert(self.start() == self.start);
        clock::nanos_since(self.start)
    }

    /// The failures counted for `ip`.
    pub fn failure_count(&self, ip: IpAddr) -> (n: usize)
        ensures
            n == failures(self@, ip),
    {
        match self.entries.get(ip) {
            Some(e) => e.count,
            None => 0,
        }
    }

    /// Whether `ip` is in cooldown at `now`. An expired cooldown is forgotten.
    pub fn is_blocked_at(&mut self, ip: IpAddr, now: u128) -> (b: bool)
        ensures
            b == blocked(old(self)@, ip, now),
            final(self)@ == looked_up(old(self)@, ip, now),
            final(self).start() == old(self).start(),
            sound(old(self)@) ==> sound(final(self)@),
    {
        match self.entries.get(ip) {
            Some(e) => match e.cooldown_until {
                Some(until) => {
                    if now < until {
                        return true;
                    }
                    self.entries.remove(ip);
                    false
                },
                None => false,
            },
            None => false,
        }
    }

    /// Whether `ip` is in cooldown. An expired cooldown is forgotten.
    pub fn is_blocked(&mut self, ip: IpAddr) -> (b: bool)
        ensures
            exists|reading: Instant|
                {
                    let now = #[trigger] clock::nanos_between(old(self).start(), reading);
                    call_ensures(Instant::now, (), reading) && b == blocked(old(self)@, ip, now)
                        && final(self)@ == looked_up(old(self)@, ip, now)
                },
            final(self).start() == old(self).start(),
            sound(old(self)@) ==> sound(final(self)@),
    {
        let now: u128 = self.now();
        self.is_blocked_at(ip, now)
    }

    /// Counts a failure of `ip` at `now`, afresh where its cooldown has expired.
    /// Returns whether it put the address into cooldown.
    pub fn record_failure_at(&mut self, ip: IpAddr, now: u128) -> (r: bool)
        requires
            failures(looked_up(old(self)@, ip, now), ip) < usize::MAX,
            now + AUTH_FAIL_COOLDOWN_NANOS <= u128::MAX,
        ensures
            r == newly_blocked(looked_up(old(self)@, ip, now), ip),
            final(self)@ == recorded(old(self)@, ip, now),
            final(self).start() == old(self).start(),
            sound(old(self)@) ==> sound(final(self)@),
    {
        self.is_blocked_at(ip, now);
        let entry: FailEntry = match self.entries.get(ip) {
            Some(e) => e,
            None => FailEntry { created_at: now, count: 0, cooldown_until: None },
        };
        let count: usize = entry.count + 1;
        let newly: bool = count >= AUTH_FAIL_THRESHOLD && entry.cooldown_until.is_none();
        let cooldown_until: Option<u128> = if newly {
            Some(now + AUTH_FAIL_COOLDOWN_NANOS)
        } else {
            entry.cooldown_until
        };
        self.entries.insert(
            ip,
            FailEntry { created_at: entry.created_at, count, cooldown_until },
        );
        newly
    }

    /// Counts a failure of `ip`, afresh where its cooldown has expired. Returns
    /// whether it put the address into cooldown.
    pub fn record_failure(&mut self, ip: IpAddr) -> (r: bool)
        requires
            failures(old(self)@, ip) < usize::MAX,
        ensures
            exists|reading: Instant|
                {
                    let now = #[trigger] clock::nanos_between(old(self).start(), reading);
                    call_ensures(Instant::now, (), reading) && r == newly_blocked(
                        looked_up(old(self)@, ip, now),
                        ip,
                    ) && final(self)@ == recorded(old(self)@, ip, now)
                },
            final(self).start() == old(self).start(),
            sound(old(self)@) ==> sound(final(self)@),
    {
        let now: u128 = self.now();
        self.record_failure_at(ip, now)
    }

    /// Forgets expired cooldowns and stale entries.
    pub fn cleanup_at(&mut self, now: u128)
        ensures
            final(self)@ == purged(old(self)@, now),
            final(self).start() == old(self).start(),
            sound(old(self)@) ==> sound(final(self)@),
    {
        let keys: Vec<IpAddr> = self.entries.keys();
        let ghost before = self@;
        let mut i: usize = 0;
        while i < keys.len()
            invariant
                i <= keys@.len(),
                self.start() == old(self).start(),
                forall|ip: IpAddr| keys@.contains(ip) <==> before.contains_key(ip),
                forall|ip: IpAddr| #[trigger]
                    self@.contains_key(ip) ==> before.contains_key(ip) && self@[ip] == before[ip],
                forall|ip: IpAddr| #[trigger]
                    before.contains_key(ip) && !self@.contains_key(ip) ==> !is_live(
                        before[ip],
                        now,
                    ),
                forall|j: int|
                    0 <= j < i ==> (self@.contains_key(#[trigger] keys@[j]) ==> is_live(
                        before[keys@[j]],
                        now,
                    )),
            decreases keys@.len() - i,
        {
            let ip: IpAddr = keys[i];
            let ghost prev = self@;
            match self.entries.get(ip) {
                Some(e) => {
                    let live: bool = match e.cooldown_until {
                        Some(until) => now < until,
                        None => now < e.created_at || now - e.created_at
                            < AUTH_FAIL_ENTRY_TTL_NANOS,
                    };
                    if !live {
                        self.entries.remove(ip);
                    }
                },
                None => {},
            }
            assert forall|a: IpAddr| #[trigger] self@.contains_key(a) implies before.contains_key(a)
                && self@[a] == before[a] by {
                assert(prev.contains_key(a));
            }
            i = i + 1;
        }
        assert(self@ =~= purged(before, now)) by {
            assert forall|ip: IpAddr| self@.contains_key(ip) <==> purged(before, now).contains_key(
                ip,
            ) by {
                if before.contains_key(ip) {
                    assert(keys@.contains(ip));
                    let j = keys@.index_of(ip);
                    assert(keys@[j] == ip);
                }
            }
        }
    }

    /// Forgets expired cooldowns and stale entries.
    pub fn cleanup(&mut self)
        ensures
            exists|reading: Instant|
                call_ensures(Instant::now, (), reading) && final(self)@ == purged(
                    old(self)@,
                    #[trigger] clock::nanos_between(old(self).start(), reading),
                ),
            final(self).start() == old(self).start(),
            sound(old(self)@) ==> sound(final(self)@),
    {
        let now: u128 = self.now();
        self.cleanup_at(now);
    }
}

/// The table after `ip` failed at each of these times, in order.
pub open spec fn failed_at_all(
    t: Map<IpAddr, FailEntry>,
    ip: IpAddr,
    times: Seq<u128>,
) -> Map<IpAddr, FailEntry>
    decreases times.len(),
{
    if times.len() == 0 {
        t
    } else {
        recorded(failed_at_all(t, ip, times.drop_last()), ip, times.last())
    }
}

/// Three failures block an address for a day: the first two block it at no
/// time, and the third for 24 hours from its own time on, at whose end the
/// address is let in again.
pub proof fn law_three_failures_block_for_a_day(
    t: Map<IpAddr, FailEntry>,
    ip: IpAddr,
    first: u128,
    second: u128,
    third: u128,
    now: u128,
)
    requires
        !t.contains_key(ip),
        third + 86_400_000_000_000 <= u128::MAX,
    ensures
        ({
            let once = recorded(t, ip, first);
            let twice = recorded(once, ip, second);
            let thrice = recorded(twice, ip, third);
            &&& !blocked(t, ip, now)
            &&& !blocked(once, ip, now)
            &&& !blocked(twice, ip, now)
            &&& blocked(thrice, ip, now) <==> now < third + 86_400_000_000_000
            &&& failures(once, ip) == 1 && failures(twice, ip) == 2 && failures(thrice, ip) == 3
            &&& looked_up(thrice, ip, now).contains_key(ip) <==> now < third + 86_400_000_000_000
            &&& !newly_blocked(looked_up(t, ip, first), ip)
            &&& !newly_blocked(looked_up(once, ip, second), ip)
            &&& newly_blocked(looked_up(twice, ip, third), ip)
        }),
{
}

/// By the table's own clock: after failures at three readings an address is
/// blocked at a further reading exactly while less than 24 hours lie between
/// the third and that one, both counted from the table's start.
pub proof fn law_cooldown_ends_by_the_clock(
    t: Map<IpAddr, FailEntry>,
    ip: IpAddr,
    start: Instant,
    first: Instant,
    second: Instant,
    third: Instant,
    reading: Instant,
)
    requires
        !t.contains_key(ip),
        clock::nanos_of(clock::span_between(start, third)) + 86_400_000_000_000 <= u128::MAX,
    ensures
        blocked(
            recorded(
                recorded(
                    recorded(t, ip, clock::nanos_between(start, first)),
                    ip,
                    clock::nanos_between(start, second),
                ),
                ip,
                clock::nanos_between(start, third),
            ),
            ip,
            clock::nanos_between(start, reading),
        ) <==> clock::nanos_of(clock::span_between(start, reading)) < clock::nanos_of(
            clock::span_between(start, third),
        ) + 86_400_000_000_000,
{
    law_three_failures_block_for_a_day(
        t,
        ip,
        clock::nanos_between(start, first),
        clock::nanos_between(start, second),
        clock::nanos_between(start, third),
        clock::nanos_between(start, reading),
    );
}

/// A failure is said to start a cooldown exactly where the address was not
/// blocked before it and is blocked after it.
pub proof fn law_new_cooldown_is_reported(
    t: Map<IpAddr, FailEntry>,
    ip: IpAddr,
    now: u128,
)
    requires
        sound(t),
        failures(t, ip) < usize::MAX,
        now + 86_400_000_000_000 <= u128::MAX,
    ensures
        newly_blocked(looked_up(t, ip, now), ip) <==> !blocked(t, ip, now) && blocked(
            recorded(t, ip, now),
            ip,
            now,
        ),
{
}

/// A look at an address changes nothing but its own entry, and that only where
/// its cooldown has ended; what it tells is whether the cooldown still runs.
pub proof fn law_look_forgets_only_expired_cooldown(
    t: Map<IpAddr, FailEntry>,
    ip: IpAddr,
    now: u128,
)
    ensures
        looked_up(t, ip, now).remove(ip) == t.remove(ip),
        blocked(t, ip, now) ==> looked_up(t, ip, now) == t,
        t.contains_key(ip) && t[ip].cooldown_until is None ==> looked_up(t, ip, now) == t
            && !blocked(t, ip, now),
        t.contains_key(ip) && t[ip].cooldown_until is Some ==> (blocked(t, ip, now) <==> now
            < t[ip].cooldown_until->0) && (looked_up(t, ip, now).contains_key(ip) <==> now
            < t[ip].cooldown_until->0),
        !t.contains_key(ip) ==> !blocked(t, ip, now) && looked_up(t, ip, now) == t,
{
    assert(looked_up(t, ip, now).remove(ip) =~= t.remove(ip));
}

/// A failure adds one to the count and touches no other address. The entry
/// keeps the time of its first failure, and its cooldown once it has one.
pub proof fn law_failure_adds_one(t: Map<IpAddr, FailEntry>, ip: IpAddr, now: u128)
    requires
        failures(t, ip) < usize::MAX,
        now + 86_400_000_000_000 <= u128::MAX,
        t.contains_key(ip) && t[ip].cooldown_until is Some ==> now < t[ip].cooldown_until->0,
    ensures
        ({
            let after = recorded(t, ip, now);
            &&& after.remove(ip) == t.remove(ip)
            &&& after.contains_key(ip)
            &&& failures(after, ip) == failures(t, ip) + 1
            &&& after[ip].count == failures(t, ip) + 1
            &&& after[ip].created_at == (if t.contains_key(ip) {
                t[ip].created_at
            } else {
                now
            })
            &&& t.contains_key(ip) && t[ip].cooldown_until is Some ==> after[ip].cooldown_until
                == t[ip].cooldown_until
            &&& !(t.contains_key(ip) && t[ip].cooldown_until is Some) ==> after[ip].cooldown_until
                == (if failures(t, ip) >= 2 {
                Some((now + 86_400_000_000_000) as u128)
            } else {
                None
            })
        }),
{
    assert(recorded(t, ip, now).remove(ip) =~= t.remove(ip));
}

/// A purge keeps an entry, unchanged, exactly while its cooldown runs or, where
/// it has none, for 24 hours from its first failure on.
pub proof fn law_purge_forgets_after_a_day(
    t: Map<IpAddr, FailEntry>,
    ip: IpAddr,
    now: u128,
)
    requires
        t.contains_key(ip),
    ensures
        t[ip].cooldown_until is Some ==> (purged(t, now).contains_key(ip) <==> now
            < t[ip].cooldown_until->0),
        t[ip].cooldown_until is None ==> (purged(t, now).contains_key(ip) <==> now
            < t[ip].created_at + 86_400_000_000_000),
        purged(t, now).contains_key(ip) ==> purged(t, now)[ip] == t[ip],
        forall|other: IpAddr| #[trigger]
            purged(t, now).contains_key(other) ==> t.contains_key(other),
{
}

/// The failures that follow the one that reaches the threshold all lie in the
/// cooldown that it started.
pub open spec fn within_one_cooldown(times: Seq<u128>) -> bool {
    forall|i: int|
        AUTH_FAIL_THRESHOLD <= i < times.len() ==> #[trigger] times[i] < times[AUTH_FAIL_THRESHOLD
            - 1] + AUTH_FAIL_COOLDOWN_NANOS
}

/// However far apart the failures of a fresh address lie, it is blocked from
/// the failure that reaches the threshold on, for one cooldown; failures in
/// that cooldown are counted and do not extend it. No purge comes between them
/// that finds the entry stale; any other purge changes nothing of this
/// (`law_purge_keeps_counting`).
pub proof fn law_threshold_blocks_for_cooldown(
    t: Map<IpAddr, FailEntry>,
    ip: IpAddr,
    times: Seq<u128>,
    now: u128,
)
    requires
        !t.contains_key(ip),
        times.len() <= usize::MAX,
        forall|i: int| 0 <= i < times.len() ==> times[i] + AUTH_FAIL_COOLDOWN_NANOS <= u128::MAX,
        within_one_cooldown(times),
    ensures
        blocked(failed_at_all(t, ip, times), ip, now) <==> times.len() >= AUTH_FAIL_THRESHOLD
            && now < times[AUTH_FAIL_THRESHOLD - 1] + AUTH_FAIL_COOLDOWN_NANOS,
        failures(failed_at_all(t, ip, times), ip) == times.len(),
{
    lemma_failed_at_all(t, ip, times);
}

proof fn lemma_failed_at_all(t: Map<IpAddr, FailEntry>, ip: IpAddr, times: Seq<u128>)
    requires
        !t.contains_key(ip),
        times.len() <= usize::MAX,
        forall|i: int| 0 <= i < times.len() ==> times[i] + AUTH_FAIL_COOLDOWN_NANOS <= u128::MAX,
        within_one_cooldown(times),
    ensures
        failures(failed_at_all(t, ip, times), ip) == times.len(),
        failed_at_all(t, ip, times).contains_key(ip) <==> times.len() > 0,
        times.len() > 0 ==> failed_at_all(t, ip, times)[ip].cooldown_until == (if times.len()
            >= AUTH_FAIL_THRESHOLD {
            Some((times[AUTH_FAIL_THRESHOLD - 1] + AUTH_FAIL_COOLDOWN_NANOS) as u128)
        } else {
            None
        }),
    decreases times.len(),
{
    if times.len() > 0 {
        let before = times.drop_last();
        assert forall|i: int| AUTH_FAIL_THRESHOLD <= i < before.len() implies #[trigger] before[i]
            < before[AUTH_FAIL_THRESHOLD - 1] + AUTH_FAIL_COOLDOWN_NANOS by {
            assert(before[i] == times[i]);
        }
        lemma_failed_at_all(t, ip, before);
        assert(times.last() == times[times.len() - 1]);
    }
}

/// Once the cooldown has expired, the failures of an address count as those of
/// one that never failed, whether or not anyone looked at it in between.
pub proof fn law_count_is_fresh_after_cooldown(
    t: Map<IpAddr, FailEntry>,
    ip: IpAddr,
    times: Seq<u128>,
)
    requires
        t.contains_key(ip),
        t[ip].cooldown_until is Some,
        times.len() > 0,
        t[ip].cooldown_until->0 <= times[0],
    ensures
        failed_at_all(t, ip, times) == failed_at_all(t.remove(ip), ip, times),
    decreases times.len(),
{
    if times.len() == 1 {
        assert(times.drop_last() =~= Seq::<u128>::empty());
        assert(times.last() == times[0]);
        reveal_with_fuel(failed_at_all, 2);
    } else {
        assert(times.drop_last()[0] == times[0]);
        law_count_is_fresh_after_cooldown(t, ip, times.drop_last());
    }
}

/// An address that reaches the threshold again after its cooldown has expired
/// is blocked again.
pub proof fn law_cooldown_starts_again(
    t: Map<IpAddr, FailEntry>,
    ip: IpAddr,
    times: Seq<u128>,
    now: u128,
)
    requires
        t.contains_key(ip),
        t[ip].cooldown_until is Some,
        AUTH_FAIL_THRESHOLD <= times.len() <= usize::MAX,
        t[ip].cooldown_until->0 <= times[0],
        forall|i: int| 0 <= i < times.len() ==> times[i] + AUTH_FAIL_COOLDOWN_NANOS <= u128::MAX,
        within_one_cooldown(times),
    ensures
        blocked(failed_at_all(t, ip, times), ip, now) <==> now < times[AUTH_FAIL_THRESHOLD - 1]
            + AUTH_FAIL_COOLDOWN_NANOS,
{
    law_count_is_fresh_after_cooldown(t, ip, times);
    law_threshold_blocks_for_cooldown(t.remove(ip), ip, times, now);
}

/// Failures of one address, and looks at it, leave every other address as it
/// was: its entry, whether it is blocked at any time, and what further failures
/// of its own come to.
pub proof fn law_addresses_are_independent(
    t: Map<IpAddr, FailEntry>,
    ip: IpAddr,
    other: IpAddr,
    now: u128,
    times: Seq<u128>,
    later: u128,
)
    requires
        ip != other,
    ensures
        recorded(t, ip, now).contains_key(other) == t.contains_key(other),
        recorded(t, ip, now)[other] == t[other],
        looked_up(t, ip, now).contains_key(other) == t.contains_key(other),
        looked_up(t, ip, now)[other] == t[other],
        blocked(recorded(t, ip, now), other, later) == blocked(t, other, later),
        blocked(looked_up(t, ip, now), other, later) == blocked(t, other, later),
        failures(failed_at_all(recorded(t, ip, now), other, times), other) == failures(
            failed_at_all(t, other, times),
            other,
        ),
        blocked(failed_at_all(recorded(t, ip, now), other, times), other, later) == blocked(
            failed_at_all(t, other, times),
            other,
            later,
        ),
{
    lemma_entry_decides(recorded(t, ip, now), t, other, times);
}

/// What failures of an address come to depends on its own entry alone.
proof fn lemma_entry_decides(
    a: Map<IpAddr, FailEntry>,
    b: Map<IpAddr, FailEntry>,
    ip: IpAddr,
    times: Seq<u128>,
)
    requires
        a.contains_key(ip) == b.contains_key(ip),
        a.contains_key(ip) ==> a[ip] == b[ip],
    ensures
        ({
            let after_a = failed_at_all(a, ip, times);
            let after_b = failed_at_all(b, ip, times);
            after_a.contains_key(ip) == after_b.contains_key(ip) && (after_a.contains_key(ip)
                ==> after_a[ip] == after_b[ip])
        }),
    decreases times.len(),
{
    if times.len() > 0 {
        lemma_entry_decides(a, b, ip, times.drop_last());
    }
}

/// Failures during a cooldown do not move its end.
pub proof fn law_cooldown_is_not_extended(
    t: Map<IpAddr, FailEntry>,
    ip: IpAddr,
    now: u128,
    later: u128,
)
    requires
        blocked(t, ip, now),
    ensures
        blocked(recorded(t, ip, now), ip, later) == blocked(t, ip, later),
{
}

/// Once the cooldown is over, the next look at the address forgets its
/// failures, and the next failure is its first.
pub proof fn law_count_starts_over_after_cooldown(
    t: Map<IpAddr, FailEntry>,
    ip: IpAddr,
    now: u128,
)
    requires
        sound(t),
        failures(t, ip) >= AUTH_FAIL_THRESHOLD,
        !blocked(t, ip, now),
    ensures
        failures(looked_up(t, ip, now), ip) == 0,
        failures(recorded(t, ip, now), ip) == 1,
{
}

/// An address below the threshold is never blocked.
pub proof fn law_below_threshold_is_not_blocked(
    t: Map<IpAddr, FailEntry>,
    ip: IpAddr,
    now: u128,
)
    requires
        sound(t),
        failures(t, ip) < AUTH_FAIL_THRESHOLD,
    ensures
        !blocked(t, ip, now),
{
}

/// Purging the table, or looking an address up, changes no verdict from then
/// on; nor does a look change what a later failure of the address comes to, or
/// a purge that leaves its entry.
pub proof fn law_forgetting_changes_no_verdict(
    t: Map<IpAddr, FailEntry>,
    ip: IpAddr,
    other: IpAddr,
    now: u128,
    later: u128,
)
    requires
        now <= later,
    ensures
        blocked(purged(t, now), ip, later) == blocked(t, ip, later),
        blocked(looked_up(t, other, now), ip, later) == blocked(t, ip, later),
        recorded(looked_up(t, ip, now), ip, later) == recorded(t, ip, later),
        t.contains_key(ip) && is_live(t[ip], now) ==> recorded(purged(t, now), ip, later)[ip]
            == recorded(t, ip, later)[ip],
{
}

/// The entry of `ip` is below the threshold and old.
pub open spec fn is_stale(t: Map<IpAddr, FailEntry>, ip: IpAddr, now: u128) -> bool {
    t.contains_key(ip) && t[ip].cooldown_until is None && !is_live(t[ip], now)
}

/// A purge that does not find the entry of an address stale leaves what its
/// further failures come to, however many.
pub proof fn law_purge_keeps_counting(
    t: Map<IpAddr, FailEntry>,
    ip: IpAddr,
    now: u128,
    times: Seq<u128>,
)
    requires
        !is_stale(t, ip, now),
        times.len() > 0,
        now <= times[0],
    ensures
        failed_at_all(purged(t, now), ip, times).contains_key(ip),
        failed_at_all(purged(t, now), ip, times)[ip] == failed_at_all(t, ip, times)[ip],
{
    if t.contains_key(ip) && !is_live(t[ip], now) {
        law_count_is_fresh_after_cooldown(t, ip, times);
        lemma_entry_decides(purged(t, now), t.remove(ip), ip, times);
    } else {
        lemma_entry_decides(purged(t, now), t, ip, times);
    }
}

/// A purge that finds the entry of an address stale forgets its failures: the
/// next one is the first.
pub proof fn law_purge_forgets_stale_failures(
    t: Map<IpAddr, FailEntry>,
    ip: IpAddr,
    now: u128,
    later: u128,
)
    requires
        is_stale(t, ip, now),
    ensures
        failures(purged(t, now), ip) == 0,
        failures(recorded(purged(t, now), ip, later), ip) == 1,
{
}

/// A purge leaves only entries whose cooldown runs or that are young, so that
/// the table does not grow with addresses that failed long ago.
pub proof fn law_purge_leaves_live_entries(t: Map<IpAddr, FailEntry>, ip: IpAddr, now: u128)
    ensures
        purged(t, now).contains_key(ip) <==> t.contains_key(ip) && is_live(t[ip], now),
        purged(t, now).contains_key(ip) ==> purged(t, now)[ip] == t[ip],
        purged(purged(t, now), now) == purged(t, now),
{
    assert(purged(purged(t, now), now) =~= purged(t, now));
}

} // verus!
