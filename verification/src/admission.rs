//! Which connections are let in.

use std::time::Instant;
use vstd::prelude::*;

use crate::addr::IpAddr;
use crate::clock;
use crate::config;
use crate::ratelimit;
use crate::ratelimit::{AuthFailTable, ConnGuard, ConnTable};

verus! {

/// Whether a new connection is let in.
pub enum Admission {
    /// It comes from a trusted proxy, to which no limit applies.
    Trusted,
    /// Its address is in cooldown.
    Blocked,
    /// Its address holds all the connections it may.
    OverLimit,
    /// It is let in and holds this slot.
    Admitted(ConnGuard),
}

/// How a connection that comes in at `now` is answered.
pub open spec fn is_answer(
    answer: Admission,
    ip: IpAddr,
    proxies: Seq<(IpAddr, u8)>,
    fails: Map<IpAddr, ratelimit::FailEntry>,
    conns: Map<IpAddr, usize>,
    max: usize,
    now: u128,
) -> bool {
    if config::is_trusted(ip, proxies) {
        answer is Trusted
    } else if ratelimit::blocked(fails, ip, now) {
        answer is Blocked
    } else if ratelimit::held(conns, ip) >= max {
        answer is OverLimit
    } else {
        answer matches Admission::Admitted(guard) && guard@ == ip
    }
}

/// The failure table after a connection was answered.
pub open spec fn fails_after(
    ip: IpAddr,
    proxies: Seq<(IpAddr, u8)>,
    fails: Map<IpAddr, ratelimit::FailEntry>,
    now: u128,
) -> Map<IpAddr, ratelimit::FailEntry> {
    if config::is_trusted(ip, proxies) {
        fails
    } else {
        ratelimit::looked_up(fails, ip, now)
    }
}

/// The connection table after a connection was answered.
pub open spec fn conns_after(
    ip: IpAddr,
    proxies: Seq<(IpAddr, u8)>,
    fails: Map<IpAddr, ratelimit::FailEntry>,
    conns: Map<IpAddr, usize>,
    max: usize,
    now: u128,
) -> Map<IpAddr, usize> {
    if config::is_trusted(ip, proxies) || ratelimit::blocked(fails, ip, now) {
        conns
    } else {
        ratelimit::acquired(conns, ip, max)
    }
}

/// Answers a connection that comes in at `now`, by the failure table's clock.
pub fn screen_at(
    ip: IpAddr,
    proxies: &[(IpAddr, u8)],
    fails: &mut AuthFailTable,
    conns: &mut ConnTable,
    max: usize,
    now: u128,
) -> (answer: Admission)
    ensures
        is_answer(answer, ip, proxies@, old(fails)@, old(conns)@, max, now),
        final(fails)@ == fails_after(ip, proxies@, old(fails)@, now),
        final(conns)@ == conns_after(ip, proxies@, old(fails)@, old(conns)@, max, now),
        final(fails).start() == old(fails).start(),
{
    if config::is_trusted_proxy(ip, proxies) {
        return Admission::Trusted;
    }
    if fails.is_blocked_at(ip, now) {
        return Admission::Blocked;
    }
    match ratelimit::try_acquire(conns, ip, max) {
        Some(guard) => Admission::Admitted(guard),
        None => Admission::OverLimit,
    }
}

/// Answers a connection that comes in now.
pub fn screen(
    ip: IpAddr,
    proxies: &[(IpAddr, u8)],
    fails: &mut AuthFailTable,
    conns: &mut ConnTable,
    max: usize,
) -> (answer: Admission)
    ensures
        exists|reading: Instant|
            {
                let now = #[trigger] clock::nanos_between(old(fails).start(), reading);
                &&& call_ensures(Instant::now, (), reading)
                &&& is_answer(answer, ip, proxies@, old(fails)@, old(conns)@, max, now)
                &&& final(fails)@ == fails_after(ip, proxies@, old(fails)@, now)
                &&& final(conns)@ == conns_after(
                    ip,
                    proxies@,
                    old(fails)@,
                    old(conns)@,
                    max,
                    now,
                )
            },
        final(fails).start() == old(fails).start(),
{
    let now: u128 = fails.now();
    screen_at(ip, proxies, fails, conns, max, now)
}

/// A trusted proxy is let in whatever was counted of its address, and nothing
/// is counted of it.
pub proof fn law_trusted_proxy_is_not_limited(
    answer: Admission,
    ip: IpAddr,
    proxies: Seq<(IpAddr, u8)>,
    fails: Map<IpAddr, ratelimit::FailEntry>,
    conns: Map<IpAddr, usize>,
    max: usize,
    now: u128,
)
    requires
        config::is_trusted(ip, proxies),
        is_answer(answer, ip, proxies, fails, conns, max, now),
    ensures
        answer is Trusted,
        fails_after(ip, proxies, fails, now) == fails,
        conns_after(ip, proxies, fails, conns, max, now) == conns,
{
}

/// Each answer has its reason, and only that: trusted proxies are told so, an
/// address in cooldown is blocked, one that holds its limit is over it, and
/// every other connection is admitted with a guard of its own address.
pub proof fn law_every_answer_has_its_reason(
    answer: Admission,
    ip: IpAddr,
    proxies: Seq<(IpAddr, u8)>,
    fails: Map<IpAddr, ratelimit::FailEntry>,
    conns: Map<IpAddr, usize>,
    max: usize,
    now: u128,
)
    requires
        is_answer(answer, ip, proxies, fails, conns, max, now),
    ensures
        answer is Trusted <==> config::is_trusted(ip, proxies),
        answer is Blocked <==> !config::is_trusted(ip, proxies) && ratelimit::blocked(
            fails,
            ip,
            now,
        ),
        answer is OverLimit <==> !config::is_trusted(ip, proxies) && !ratelimit::blocked(
            fails,
            ip,
            now,
        ) && ratelimit::held(conns, ip) >= max,
        answer is Admitted <==> !config::is_trusted(ip, proxies) && !ratelimit::blocked(
            fails,
            ip,
            now,
        ) && ratelimit::held(conns, ip) < max,
        answer matches Admission::Admitted(guard) ==> guard@ == ip,
{
}

/// An address that is not trusted, is not in cooldown and holds fewer
/// connections than the limit is admitted. Its count grows by one, and that of
/// no other address changes.
pub proof fn law_address_below_limit_is_admitted(
    answer: Admission,
    ip: IpAddr,
    proxies: Seq<(IpAddr, u8)>,
    fails: Map<IpAddr, ratelimit::FailEntry>,
    conns: Map<IpAddr, usize>,
    max: usize,
    now: u128,
    other: IpAddr,
)
    requires
        is_answer(answer, ip, proxies, fails, conns, max, now),
        !config::is_trusted(ip, proxies),
        !ratelimit::blocked(fails, ip, now),
        ratelimit::held(conns, ip) < max,
        ip != other,
    ensures
        answer matches Admission::Admitted(guard) && guard@ == ip,
        ratelimit::held(conns_after(ip, proxies, fails, conns, max, now), ip) == ratelimit::held(
            conns,
            ip,
        ) + 1,
        ratelimit::held(conns_after(ip, proxies, fails, conns, max, now), other)
            == ratelimit::held(conns, other),
{
}

/// The connection table after `n` connections in a row were answered.
pub open spec fn conns_after_row(
    ip: IpAddr,
    proxies: Seq<(IpAddr, u8)>,
    fails: Map<IpAddr, ratelimit::FailEntry>,
    conns: Map<IpAddr, usize>,
    max: usize,
    now: u128,
    n: nat,
) -> Map<IpAddr, usize>
    decreases n,
{
    if n == 0 {
        conns
    } else {
        conns_after(
            ip,
            proxies,
            fails,
            conns_after_row(ip, proxies, fails, conns, max, now, (n - 1) as nat),
            max,
            now,
        )
    }
}

/// Of the connections that an address without any opens in a row, exactly the
/// first `max` are admitted, and all that follow are over the limit.
pub proof fn law_limit_is_admitted_in_full(
    answer: Admission,
    ip: IpAddr,
    proxies: Seq<(IpAddr, u8)>,
    fails: Map<IpAddr, ratelimit::FailEntry>,
    conns: Map<IpAddr, usize>,
    max: usize,
    now: u128,
    n: nat,
)
    requires
        !config::is_trusted(ip, proxies),
        !ratelimit::blocked(fails, ip, now),
        !conns.contains_key(ip),
        is_answer(
            answer,
            ip,
            proxies,
            fails,
            conns_after_row(ip, proxies, fails, conns, max, now, n),
            max,
            now,
        ),
    ensures
        n < max ==> answer is Admitted,
        n >= max ==> answer is OverLimit,
{
    lemma_row(ip, proxies, fails, conns, max, now, n);
}

proof fn lemma_row(
    ip: IpAddr,
    proxies: Seq<(IpAddr, u8)>,
    fails: Map<IpAddr, ratelimit::FailEntry>,
    conns: Map<IpAddr, usize>,
    max: usize,
    now: u128,
    n: nat,
)
    requires
        !config::is_trusted(ip, proxies),
        !ratelimit::blocked(fails, ip, now),
        !conns.contains_key(ip),
    ensures
        ratelimit::held(conns_after_row(ip, proxies, fails, conns, max, now, n), ip) == (if n < max {
            n
        } else {
            max as nat
        }),
    decreases n,
{
    if n > 0 {
        lemma_row(ip, proxies, fails, conns, max, now, (n - 1) as nat);
    }
}

/// Answering a connection forgets an expired cooldown of its own address and
/// nothing else, and for a trusted proxy not even that.
pub proof fn law_answer_keeps_failures(
    ip: IpAddr,
    proxies: Seq<(IpAddr, u8)>,
    fails: Map<IpAddr, ratelimit::FailEntry>,
    now: u128,
)
    ensures
        fails_after(ip, proxies, fails, now).remove(ip) == fails.remove(ip),
        fails_after(ip, proxies, fails, now) == fails || !config::is_trusted(ip, proxies)
            && fails.contains_key(ip) && fails[ip].cooldown_until is Some
            && fails[ip].cooldown_until->0 <= now,
        !config::is_trusted(ip, proxies) && fails.contains_key(ip)
            && fails[ip].cooldown_until is Some && fails[ip].cooldown_until->0 <= now
            ==> !fails_after(ip, proxies, fails, now).contains_key(ip),
{
    assert(fails_after(ip, proxies, fails, now).remove(ip) =~= fails.remove(ip));
}

/// A connection that is turned away takes no slot, of its own address or another.
pub proof fn law_turned_away_takes_no_slot(
    answer: Admission,
    ip: IpAddr,
    proxies: Seq<(IpAddr, u8)>,
    fails: Map<IpAddr, ratelimit::FailEntry>,
    conns: Map<IpAddr, usize>,
    max: usize,
    now: u128,
    other: IpAddr,
)
    requires
        is_answer(answer, ip, proxies, fails, conns, max, now),
        answer is Blocked || answer is OverLimit,
    ensures
        ratelimit::held(conns_after(ip, proxies, fails, conns, max, now), other)
            == ratelimit::held(conns, other),
{
}

/// An address that reached the threshold is turned away until its cooldown ends.
pub proof fn law_persistent_failure_is_turned_away(
    answer: Admission,
    ip: IpAddr,
    proxies: Seq<(IpAddr, u8)>,
    fails: Map<IpAddr, ratelimit::FailEntry>,
    times: Seq<u128>,
    conns: Map<IpAddr, usize>,
    max: usize,
    now: u128,
)
    requires
        !config::is_trusted(ip, proxies),
        !fails.contains_key(ip),
        config::AUTH_FAIL_THRESHOLD <= times.len() <= usize::MAX,
        forall|i: int|
            0 <= i < times.len() ==> times[i] + config::AUTH_FAIL_COOLDOWN_NANOS <= u128::MAX,
        ratelimit::within_one_cooldown(times),
        now < times[config::AUTH_FAIL_THRESHOLD - 1] + config::AUTH_FAIL_COOLDOWN_NANOS,
        is_answer(
            answer,
            ip,
            proxies,
            ratelimit::failed_at_all(fails, ip, times),
            conns,
            max,
            now,
        ),
    ensures
        answer is Blocked,
{
    ratelimit::law_threshold_blocks_for_cooldown(fails, ip, times, now);
}

} // verus!
