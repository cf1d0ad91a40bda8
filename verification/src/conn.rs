//! What a connection does next.
//!
//! A connection is TLS first. Its first byte tells a WebTunnel request, which
//! opens with an HTTP `GET`, from an obfs4 handshake. A WebTunnel request has
//! to ask for a valid path; any other gets a decoy. After its handshake a
//! connection is relayed.

use vstd::prelude::*;
use vstd::utf8;

use crate::addr::IpAddr;
use crate::config;
use crate::http;
use crate::webtunnel;

verus! {

/// How a client reaches the relay.
#[derive(Clone, Copy, Debug, PartialEq, Eq, Structural)]
pub enum Transport {
    WebTunnel,
    Obfs4,
}

/// What a connection waits for.
#[derive(Clone, Copy, Debug, PartialEq, Eq, Structural)]
pub enum ConnState {
    /// The TLS handshake.
    Tls,
    /// The first bytes inside TLS.
    FirstByte,
    /// The WebTunnel request.
    Request,
    /// The transport's own handshake.
    Handshake(Transport),
    /// Nothing more.
    Done,
}

/// What a connection met.
#[derive(Clone, Copy, Debug)]
pub enum ConnEvent<'a> {
    /// The TLS handshake succeeded.
    TlsAccepted,
    /// The TLS handshake failed.
    TlsFailed,
    /// The TLS handshake took too long.
    TlsTimedOut,
    /// The client's bytes so far; none where the stream has ended.
    Buffered(&'a [u8]),
    /// The client's bytes could not be read.
    ReadFailed,
    /// The transport's handshake succeeded.
    HandshakeDone,
    /// The transport's handshake failed.
    HandshakeFailed,
}

/// What to do next.
#[derive(Clone, Copy, Debug, PartialEq, Eq, Structural)]
pub enum ConnAction {
    /// Read the first bytes without consuming them.
    PeekFirstByte,
    /// Read the request without consuming it.
    PeekRequest,
    /// Perform the transport's handshake.
    Accept(Transport),
    /// Relay the connection to the upstream server.
    Relay,
    /// Send the decoy response, then close.
    Decoy,
    /// Close.
    Close,
}

/// The next state and action, and whether the client failed to authenticate.
#[derive(Clone, Copy, Debug, PartialEq, Eq, Structural)]
pub struct ConnStep {
    pub state: ConnState,
    pub action: ConnAction,
    /// Count a failure of the client's address.
    pub record_failure: bool,
}

/// The event is one that the state waits for.
pub open spec fn awaits(state: ConnState, event: ConnEvent<'_>) -> bool {
    match state {
        ConnState::Tls => event is TlsAccepted || event is TlsFailed || event is TlsTimedOut,
        ConnState::FirstByte => event is Buffered || event is ReadFailed,
        ConnState::Request => event is Buffered || event is ReadFailed,
        ConnState::Handshake(_) => event is HandshakeDone || event is HandshakeFailed,
        ConnState::Done => false,
    }
}

/// The transport that the first byte announces: a WebTunnel request opens with
/// the letter `G`.
pub open spec fn transport_of(first: u8) -> Transport {
    if first == 0x47 {
        Transport::WebTunnel
    } else {
        Transport::Obfs4
    }
}

/// The client's bytes are a request for one of the valid paths.
pub open spec fn asks_for_valid_path(event: ConnEvent<'_>, paths: Seq<Seq<char>>) -> bool {
    event matches ConnEvent::Buffered(buf) && (http::http_path(buf@) matches Some(path)
        && paths.contains(path))
}

/// The client failed to authenticate: its WebTunnel request does not ask for a
/// valid path, or its obfs4 handshake failed.
pub open spec fn fails_auth(
    state: ConnState,
    event: ConnEvent<'_>,
    paths: Seq<Seq<char>>,
) -> bool {
    ||| state == ConnState::Request && !asks_for_valid_path(event, paths)
    ||| state == ConnState::Handshake(Transport::Obfs4) && event is HandshakeFailed
}

/// The state and action that follow an event.
pub open spec fn follows(
    state: ConnState,
    event: ConnEvent<'_>,
    paths: Seq<Seq<char>>,
) -> (ConnState, ConnAction) {
    match state {
        ConnState::Tls => if event is TlsAccepted {
            (ConnState::FirstByte, ConnAction::PeekFirstByte)
        } else {
            (ConnState::Done, ConnAction::Close)
        },
        ConnState::FirstByte => match event {
            ConnEvent::Buffered(buf) => if buf@.len() == 0 {
                (ConnState::Done, ConnAction::Close)
            } else if transport_of(buf@[0]) == Transport::WebTunnel {
                (ConnState::Request, ConnAction::PeekRequest)
            } else {
                (
                    ConnState::Handshake(Transport::Obfs4),
                    ConnAction::Accept(Transport::Obfs4),
                )
            },
            _ => (ConnState::Done, ConnAction::Close),
        },
        ConnState::Request => if asks_for_valid_path(event, paths) {
            (
                ConnState::Handshake(Transport::WebTunnel),
                ConnAction::Accept(Transport::WebTunnel),
            )
        } else {
            (ConnState::Done, ConnAction::Decoy)
        },
        ConnState::Handshake(_) => if event is HandshakeDone {
            (ConnState::Done, ConnAction::Relay)
        } else {
            (ConnState::Done, ConnAction::Close)
        },
        ConnState::Done => (ConnState::Done, ConnAction::Close),
    }
}

/// Decides what a connection does after an event. A failure to authenticate
/// is counted unless the client is a trusted proxy, behind which any client
/// may stand.
pub fn next_step(
    state: ConnState,
    event: ConnEvent<'_>,
    peer: IpAddr,
    proxies: &[(IpAddr, u8)],
    valid_paths: &[String],
) -> (step: ConnStep)
    requires
        awaits(state, event),
    ensures
        (step.state, step.action) == follows(state, event, webtunnel::texts(valid_paths@)),
        step.record_failure == (fails_auth(state, event, webtunnel::texts(valid_paths@))
            && !config::is_trusted(peer, proxies@)),
{
    match state {
        ConnState::Tls => match event {
            ConnEvent::TlsAccepted => ConnStep {
                state: ConnState::FirstByte,
                action: ConnAction::PeekFirstByte,
                record_failure: false,
            },
            _ => close(false),
        },
        ConnState::FirstByte => match event {
            ConnEvent::Buffered(buf) => {
                if buf.len() == 0 {
                    close(false)
                } else if buf[0] == 0x47 {
                    ConnStep {
                        state: ConnState::Request,
                        action: ConnAction::PeekRequest,
                        record_failure: false,
                    }
                } else {
                    ConnStep {
                        state: ConnState::Handshake(Transport::Obfs4),
                        action: ConnAction::Accept(Transport::Obfs4),
                        record_failure: false,
                    }
                }
            },
            _ => close(false),
        },
        ConnState::Request => {
            let valid: bool = match event {
                ConnEvent::Buffered(buf) => match http::extract_http_path(buf) {
                    Some(path) => webtunnel::is_valid_path(valid_paths, path),
                    None => false,
                },
                _ => false,
            };
            if valid {
                ConnStep {
                    state: ConnState::Handshake(Transport::WebTunnel),
                    action: ConnAction::Accept(Transport::WebTunnel),
                    record_failure: false,
                }
            } else {
                ConnStep {
                    state: ConnState::Done,
                    action: ConnAction::Decoy,
                    record_failure: !config::is_trusted_proxy(peer, proxies),
                }
            }
        },
        ConnState::Handshake(transport) => match event {
            ConnEvent::HandshakeDone => ConnStep {
                state: ConnState::Done,
                action: ConnAction::Relay,
                record_failure: false,
            },
            _ => match transport {
                Transport::WebTunnel => close(false),
                Transport::Obfs4 => close(!config::is_trusted_proxy(peer, proxies)),
            },
        },
        ConnState::Done => close(false),
    }
}

fn close(record_failure: bool) -> (step: ConnStep)
    ensures
        step == (ConnStep {
            state: ConnState::Done,
            action: ConnAction::Close,
            record_failure,
        }),
{
    ConnStep { state: ConnState::Done, action: ConnAction::Close, record_failure }
}

/// The state after some events from the start.
pub open spec fn state_after(events: Seq<ConnEvent<'_>>, paths: Seq<Seq<char>>) -> ConnState
    decreases events.len(),
{
    if events.len() == 0 {
        ConnState::Tls
    } else {
        follows(state_after(events.drop_last(), paths), events.last(), paths).0
    }
}

/// The last action after some events from the start.
pub open spec fn action_after(events: Seq<ConnEvent<'_>>, paths: Seq<Seq<char>>) -> ConnAction
    recommends
        events.len() > 0,
{
    follows(state_after(events.drop_last(), paths), events.last(), paths).1
}

/// Each event came when it was waited for.
pub open spec fn is_run(events: Seq<ConnEvent<'_>>, paths: Seq<Seq<char>>) -> bool
    decreases events.len(),
{
    events.len() > 0 ==> is_run(events.drop_last(), paths) && awaits(
        state_after(events.drop_last(), paths),
        events.last(),
    )
}

/// The number of failures to authenticate in a run.
pub open spec fn auth_failures(events: Seq<ConnEvent<'_>>, paths: Seq<Seq<char>>) -> nat
    decreases events.len(),
{
    if events.len() == 0 {
        0
    } else {
        auth_failures(events.drop_last(), paths) + if fails_auth(
            state_after(events.drop_last(), paths),
            events.last(),
            paths,
        ) {
            1nat
        } else {
            0nat
        }
    }
}

/// How a state is reached.
proof fn lemma_run(events: Seq<ConnEvent<'_>>, paths: Seq<Seq<char>>)
    requires
        is_run(events, paths),
    ensures
        match state_after(events, paths) {
            ConnState::Tls => events.len() == 0,
            ConnState::FirstByte => events.len() == 1 && events[0] is TlsAccepted,
            ConnState::Request => events.len() == 2 && events[0] is TlsAccepted && (
            events[1] matches ConnEvent::Buffered(buf) && buf@.len() > 0 && buf@[0] == 0x47),
            ConnState::Handshake(Transport::Obfs4) => events.len() == 2 && events[0] is TlsAccepted
                && (events[1] matches ConnEvent::Buffered(buf) && buf@.len() > 0 && buf@[0]
                != 0x47),
            ConnState::Handshake(Transport::WebTunnel) => events.len() == 3
                && events[0] is TlsAccepted && (events[1] matches ConnEvent::Buffered(buf)
                && buf@.len() > 0 && buf@[0] == 0x47) && asks_for_valid_path(events[2], paths),
            ConnState::Done => 1 <= events.len() <= 4,
        },
        auth_failures(events, paths) <= 1,
        state_after(events, paths) != ConnState::Done ==> auth_failures(events, paths) == 0,
    decreases events.len(),
{
    if events.len() > 0 {
        lemma_run(events.drop_last(), paths);
    }
}

/// Whatever the client does, a connection is decided after at most four
/// events, and counts at most one failure to authenticate.
pub proof fn law_run_is_short(events: Seq<ConnEvent<'_>>, paths: Seq<Seq<char>>)
    requires
        is_run(events, paths),
    ensures
        events.len() <= 4,
        events.len() == 4 ==> state_after(events, paths) == ConnState::Done,
        auth_failures(events, paths) <= 1,
{
    lemma_run(events, paths);
}

/// A connection is relayed only after TLS and its transport's handshake
/// succeeded, and over WebTunnel only where the client asked for a valid path.
/// It then counts no failure.
pub proof fn law_relay_needs_authentication(events: Seq<ConnEvent<'_>>, paths: Seq<Seq<char>>)
    requires
        is_run(events, paths),
        events.len() > 0,
        action_after(events, paths) == ConnAction::Relay,
    ensures
        events[0] is TlsAccepted,
        events.last() is HandshakeDone,
        events[1] matches ConnEvent::Buffered(buf) && buf@.len() > 0 && (transport_of(buf@[0])
            == Transport::WebTunnel ==> asks_for_valid_path(events[2], paths)),
        auth_failures(events, paths) == 0,
{
    lemma_run(events.drop_last(), paths);
    let before = events.drop_last();
    assert(events[0] == before[0]);
    assert(events[1] == before[1]);
}

/// Every event that a state can meet may be asked about: each outcome of TLS,
/// any bytes or none or a failed read, and each outcome of a handshake.
pub proof fn law_every_due_event_is_taken(
    buf: &[u8],
    transport: Transport,
    peer: IpAddr,
    proxies: &[(IpAddr, u8)],
    paths: &[String],
)
    ensures
        call_requires(
            next_step,
            (ConnState::Tls, ConnEvent::TlsAccepted, peer, proxies, paths),
        ),
        call_requires(next_step, (ConnState::Tls, ConnEvent::TlsFailed, peer, proxies, paths)),
        call_requires(next_step, (ConnState::Tls, ConnEvent::TlsTimedOut, peer, proxies, paths)),
        call_requires(
            next_step,
            (ConnState::FirstByte, ConnEvent::Buffered(buf), peer, proxies, paths),
        ),
        call_requires(
            next_step,
            (ConnState::FirstByte, ConnEvent::ReadFailed, peer, proxies, paths),
        ),
        call_requires(
            next_step,
            (ConnState::Request, ConnEvent::Buffered(buf), peer, proxies, paths),
        ),
        call_requires(
            next_step,
            (ConnState::Request, ConnEvent::ReadFailed, peer, proxies, paths),
        ),
        call_requires(
            next_step,
            (ConnState::Handshake(transport), ConnEvent::HandshakeDone, peer, proxies, paths),
        ),
        call_requires(
            next_step,
            (ConnState::Handshake(transport), ConnEvent::HandshakeFailed, peer, proxies, paths),
        ),
{
}

/// TLS comes first: where it is accepted the first bytes are read, else the
/// connection is closed. Neither counts as a failure.
pub proof fn law_tls_comes_first(
    event: ConnEvent<'_>,
    peer: IpAddr,
    proxies: &[(IpAddr, u8)],
    valid_paths: &[String],
    step: ConnStep,
)
    requires
        event is TlsAccepted || event is TlsFailed || event is TlsTimedOut,
        call_ensures(next_step, (ConnState::Tls, event, peer, proxies, valid_paths), step),
    ensures
        event is TlsAccepted ==> step.state == ConnState::FirstByte && step.action
            == ConnAction::PeekFirstByte,
        !(event is TlsAccepted) ==> step.state == ConnState::Done && step.action
            == ConnAction::Close,
        !step.record_failure,
{
}

/// The first byte alone tells the transports apart, however many bytes came
/// with it: `G` leads to the WebTunnel request, any other byte to the obfs4
/// handshake. Without a byte the connection is closed. None of it is a failure.
pub proof fn law_first_byte_selects_transport(
    buf: &[u8],
    peer: IpAddr,
    proxies: &[(IpAddr, u8)],
    valid_paths: &[String],
    step: ConnStep,
)
    requires
        call_ensures(
            next_step,
            (ConnState::FirstByte, ConnEvent::Buffered(buf), peer, proxies, valid_paths),
            step,
        ),
    ensures
        buf@.len() > 0 && buf@[0] == 0x47 ==> step.state == ConnState::Request && step.action
            == ConnAction::PeekRequest,
        buf@.len() > 0 && buf@[0] != 0x47 ==> step.state == ConnState::Handshake(Transport::Obfs4)
            && step.action == ConnAction::Accept(Transport::Obfs4),
        buf@.len() == 0 ==> step.state == ConnState::Done && step.action == ConnAction::Close,
        !step.record_failure,
{
}

/// A stream that cannot be read is closed before its transport is known, and
/// gets the decoy where it opened as a WebTunnel request.
pub proof fn law_unreadable_stream_ends(
    peer: IpAddr,
    proxies: &[(IpAddr, u8)],
    valid_paths: &[String],
    trusted: bool,
    first: ConnStep,
    request: ConnStep,
)
    requires
        call_ensures(config::is_trusted_proxy, (peer, proxies), trusted),
        call_ensures(
            next_step,
            (ConnState::FirstByte, ConnEvent::ReadFailed, peer, proxies, valid_paths),
            first,
        ),
        call_ensures(
            next_step,
            (ConnState::Request, ConnEvent::ReadFailed, peer, proxies, valid_paths),
            request,
        ),
    ensures
        first.state == ConnState::Done && first.action == ConnAction::Close
            && !first.record_failure,
        request.state == ConnState::Done && request.action == ConnAction::Decoy
            && request.record_failure == !trusted,
{
}

/// A WebTunnel request is accepted exactly where the path that it asks for is
/// one of the valid ones. Any other gets the decoy and counts as a failure,
/// unless it comes through a trusted proxy.
pub proof fn law_request_is_accepted_by_its_path(
    buf: &[u8],
    peer: IpAddr,
    proxies: &[(IpAddr, u8)],
    valid_paths: &[String],
    path: Option<&str>,
    trusted: bool,
    step: ConnStep,
)
    requires
        call_ensures(http::extract_http_path, (buf,), path),
        call_ensures(config::is_trusted_proxy, (peer, proxies), trusted),
        call_ensures(
            next_step,
            (ConnState::Request, ConnEvent::Buffered(buf), peer, proxies, valid_paths),
            step,
        ),
    ensures
        ({
            let valid = path is Some && exists|i: int|
                0 <= i < valid_paths@.len() && (#[trigger] valid_paths@[i])@ == path->0@;
            &&& valid ==> step.state == ConnState::Handshake(Transport::WebTunnel) && step.action
                == ConnAction::Accept(Transport::WebTunnel) && !step.record_failure
            &&& !valid ==> step.state == ConnState::Done && step.action == ConnAction::Decoy
                && step.record_failure == !trusted
        }),
{
    let paths = webtunnel::texts(valid_paths@);
    if path is Some {
        if exists|i: int|
            0 <= i < valid_paths@.len() && (#[trigger] valid_paths@[i])@ == path->0@ {
            let i = choose|i: int|
                0 <= i < valid_paths@.len() && (#[trigger] valid_paths@[i])@ == path->0@;
            assert(paths[i] == path->0@);
        }
        if paths.contains(path->0@) {
            let i = paths.index_of(path->0@);
            assert(valid_paths@[i]@ == path->0@);
        }
    }
}

/// A handshake that succeeds is followed by the relay, whatever the transport.
/// One that fails closes the connection, and counts as a failure over obfs4
/// alone, unless it comes through a trusted proxy.
pub proof fn law_handshake_decides_relay(
    transport: Transport,
    peer: IpAddr,
    proxies: &[(IpAddr, u8)],
    valid_paths: &[String],
    trusted: bool,
    done: ConnStep,
    failed: ConnStep,
)
    requires
        call_ensures(config::is_trusted_proxy, (peer, proxies), trusted),
        call_ensures(
            next_step,
            (
                ConnState::Handshake(transport),
                ConnEvent::HandshakeDone,
                peer,
                proxies,
                valid_paths,
            ),
            done,
        ),
        call_ensures(
            next_step,
            (
                ConnState::Handshake(transport),
                ConnEvent::HandshakeFailed,
                peer,
                proxies,
                valid_paths,
            ),
            failed,
        ),
    ensures
        done.state == ConnState::Done && done.action == ConnAction::Relay && !done.record_failure,
        failed.state == ConnState::Done && failed.action == ConnAction::Close,
        failed.record_failure == (transport == Transport::Obfs4 && !trusted),
{
}

/// Every obfs4 client is served: whatever bytes it opens with, and however
/// many, as long as the first is not `G`, its handshake is performed, and once
/// that is done it is relayed without a failure.
pub proof fn law_obfs4_client_is_served(buf: &[u8], paths: Seq<Seq<char>>)
    requires
        buf@.len() > 0,
        buf@[0] != 0x47,
    ensures
        ({
            let opened = seq![ConnEvent::TlsAccepted, ConnEvent::Buffered(buf)];
            let events = opened.push(ConnEvent::HandshakeDone);
            &&& is_run(events, paths)
            &&& action_after(opened, paths) == ConnAction::Accept(Transport::Obfs4)
            &&& action_after(events, paths) == ConnAction::Relay
            &&& auth_failures(events, paths) == 0
        }),
{
    let one = seq![ConnEvent::TlsAccepted];
    let two = seq![ConnEvent::TlsAccepted, ConnEvent::Buffered(buf)];
    let three = two.push(ConnEvent::HandshakeDone);
    assert(one.drop_last() =~= Seq::<ConnEvent<'_>>::empty());
    assert(two.drop_last() =~= one);
    assert(three.drop_last() =~= two);
    assert(is_run(one.drop_last(), paths));
    assert(is_run(one, paths));
    assert(is_run(two, paths));
    assert(state_after(one.drop_last(), paths) == ConnState::Tls);
    assert(state_after(one, paths) == ConnState::FirstByte);
    assert(auth_failures(one.drop_last(), paths) == 0);
    assert(auth_failures(one, paths) == 0);
    assert(auth_failures(two, paths) == 0);
}

/// A request for anything but a valid path is answered with the decoy and
/// counted as a failure; no other connection gets the decoy.
pub proof fn law_refused_request_gets_decoy(
    state: ConnState,
    event: ConnEvent<'_>,
    paths: Seq<Seq<char>>,
)
    requires
        awaits(state, event),
    ensures
        follows(state, event, paths).1 == ConnAction::Decoy <==> state == ConnState::Request
            && !asks_for_valid_path(event, paths),
        follows(state, event, paths).1 == ConnAction::Decoy ==> fails_auth(state, event, paths)
            && follows(state, event, paths).0 == ConnState::Done,
{
}

/// The request line by which a client asks for the path of a period.
pub open spec fn client_request(
    bridge_cert: Seq<char>,
    base_path: Seq<char>,
    period: u64,
    version: Seq<char>,
) -> Seq<char> {
    "GET"@ + seq![' '] + webtunnel::path_of(base_path, webtunnel::token_of(bridge_cert, period))
        + seq![' '] + version
}

/// Unless WebTunnel is off, a client that asks for the path of the current
/// period, by a clock that is off by no more than one period, gets on to the
/// WebTunnel handshake.
pub proof fn law_client_with_token_is_accepted(
    bridge_cert: Seq<char>,
    base_path: Seq<char>,
    relay_now: u64,
    client_now: u64,
    version: Seq<char>,
    buf: &[u8],
    rest: Seq<u8>,
)
    requires
        relay_now <= client_now + config::AUTH_PERIOD_SECS,
        client_now <= relay_now + config::AUTH_PERIOD_SECS,
        base_path.len() > 0,
        http::is_one_line(base_path),
        !base_path.contains(' '),
        http::is_one_line(version),
        buf@ == utf8::encode_utf8(
            client_request(bridge_cert, base_path, webtunnel::period_of(client_now), version),
        ) + seq![13u8, 10u8] + rest,
    ensures
        ({
            let paths = webtunnel::accepted_paths_at(
                bridge_cert,
                base_path,
                webtunnel::period_of(relay_now),
            );
            follows(ConnState::Request, ConnEvent::Buffered(buf), paths) == (
                ConnState::Handshake(Transport::WebTunnel),
                ConnAction::Accept(Transport::WebTunnel),
            ) && !fails_auth(ConnState::Request, ConnEvent::Buffered(buf), paths)
        }),
{
    let token = webtunnel::token_of(bridge_cert, webtunnel::period_of(client_now));
    let path = webtunnel::path_of(base_path, token);
    reveal_strlit("GET");
    reveal_strlit("/");
    assert forall|i: int| 0 <= i < path.len() implies #[trigger] path[i] != '\r' && path[i] != '\n'
        && path[i] != ' ' by {
        let n = base_path.len();
        if i < n {
            assert(path[i] == base_path[i]);
            assert(base_path.contains(base_path[i]));
        } else if i > n {
            assert(path[i] == token[i - n - 1]);
        }
    }
    webtunnel::law_clock_drift_is_tolerated(bridge_cert, base_path, relay_now, client_now);
    http::law_request_path_is_read("GET"@, path, version, rest);
}

/// Such a client, once its WebTunnel handshake is done, is relayed.
pub proof fn law_client_with_token_is_relayed(
    bridge_cert: Seq<char>,
    base_path: Seq<char>,
    relay_now: u64,
    client_now: u64,
    version: Seq<char>,
    buf: &[u8],
    rest: Seq<u8>,
)
    requires
        relay_now <= client_now + config::AUTH_PERIOD_SECS,
        client_now <= relay_now + config::AUTH_PERIOD_SECS,
        base_path.len() > 0,
        http::is_one_line(base_path),
        !base_path.contains(' '),
        http::is_one_line(version),
        buf@ == utf8::encode_utf8(
            client_request(bridge_cert, base_path, webtunnel::period_of(client_now), version),
        ) + seq![13u8, 10u8] + rest,
    ensures
        ({
            let paths = webtunnel::accepted_paths_at(
                bridge_cert,
                base_path,
                webtunnel::period_of(relay_now),
            );
            let events = seq![
                ConnEvent::TlsAccepted,
                ConnEvent::Buffered(buf),
                ConnEvent::Buffered(buf),
                ConnEvent::HandshakeDone,
            ];
            is_run(events, paths) && action_after(events, paths) == ConnAction::Relay
        }),
{
    let paths = webtunnel::accepted_paths_at(bridge_cert, base_path, webtunnel::period_of(relay_now));
    let all = seq![
        ConnEvent::TlsAccepted,
        ConnEvent::Buffered(buf),
        ConnEvent::Buffered(buf),
        ConnEvent::HandshakeDone,
    ];
    let request = client_request(
        bridge_cert,
        base_path,
        webtunnel::period_of(client_now),
        version,
    );
    law_client_with_token_is_accepted(
        bridge_cert,
        base_path,
        relay_now,
        client_now,
        version,
        buf,
        rest,
    );
    reveal_strlit("GET");
    assert(request[0] == 'G');
    assert(0x47u32 & 0x7f == 0x47) by (bit_vector);
    assert(utf8::encode_utf8(request)[0] == 0x47);
    assert(buf@[0] == utf8::encode_utf8(request)[0]);
    let one = seq![ConnEvent::TlsAccepted];
    let two = one.push(ConnEvent::Buffered(buf));
    let three = two.push(ConnEvent::Buffered(buf));
    assert(one.drop_last() =~= Seq::<ConnEvent<'_>>::empty());
    assert(two.drop_last() =~= one);
    assert(three.drop_last() =~= two);
    assert(all.drop_last() =~= three);
    assert(is_run(one.drop_last(), paths));
    assert(is_run(one, paths));
    assert(is_run(two, paths));
    assert(is_run(three, paths));
}

/// With an empty base path WebTunnel is off: whatever a client asks for, it gets
/// the decoy, and no connection that opens as a WebTunnel request is relayed.
pub proof fn law_empty_base_path_turns_webtunnel_off(
    bridge_cert: Seq<char>,
    base_path: Seq<char>,
    period: u64,
    event: ConnEvent<'_>,
    events: Seq<ConnEvent<'_>>,
)
    requires
        base_path.len() == 0,
    ensures
        ({
            let paths = webtunnel::accepted_paths_at(bridge_cert, base_path, period);
            &&& follows(ConnState::Request, event, paths) == (ConnState::Done, ConnAction::Decoy)
            &&& is_run(events, paths) && events.len() > 0 && action_after(events, paths)
                == ConnAction::Relay ==> (events[1] matches ConnEvent::Buffered(buf) && buf@.len()
                > 0 && transport_of(buf@[0]) == Transport::Obfs4)
        }),
{
    let paths = webtunnel::accepted_paths_at(bridge_cert, base_path, period);
    if is_run(events, paths) && events.len() > 0 && action_after(events, paths)
        == ConnAction::Relay {
        law_relay_needs_authentication(events, paths);
    }
}

/// Why an input or output operation failed.
#[derive(Clone, Copy, Debug, PartialEq, Eq, Structural)]
pub enum IoErrorKind {
    ConnectionReset,
    BrokenPipe,
    ConnectionAborted,
    UnexpectedEof,
    /// Anything else.
    Other,
}

/// Whether a relayed connection that ended so was merely closed by one side.
pub fn is_routine_disconnect(kind: IoErrorKind) -> (r: bool)
    ensures
        r == (kind == IoErrorKind::ConnectionReset || kind == IoErrorKind::BrokenPipe || kind
            == IoErrorKind::ConnectionAborted || kind == IoErrorKind::UnexpectedEof),
{
    match kind {
        IoErrorKind::ConnectionReset => true,
        IoErrorKind::BrokenPipe => true,
        IoErrorKind::ConnectionAborted => true,
        IoErrorKind::UnexpectedEof => true,
        IoErrorKind::Other => false,
    }
}

/// Exactly the four kinds of a side that went away are routine, and the end of
/// a relayed connection is told apart by them; byte counts are kept.
pub proof fn law_relay_end_tells_disconnects_apart(
    kind: IoErrorKind,
    routine: bool,
    broken: RelayEnd,
    to_upstream: u64,
    to_client: u64,
    finished: RelayEnd,
)
    requires
        call_ensures(is_routine_disconnect, (kind,), routine),
        call_ensures(relay_end, (Err(kind),), broken),
        call_ensures(relay_end, (Ok((to_upstream, to_client)),), finished),
    ensures
        routine <==> !(kind is Other),
        broken == (if routine {
            RelayEnd::Disconnected
        } else {
            RelayEnd::Failed
        }),
        finished == (RelayEnd::Closed { to_upstream, to_client }),
{
}

/// How a relayed connection ended.
#[derive(Clone, Copy, Debug, PartialEq, Eq, Structural)]
pub enum RelayEnd {
    /// Both sides finished, after this many bytes each way.
    Closed { to_upstream: u64, to_client: u64 },
    /// One side went away.
    Disconnected,
    /// Something broke.
    Failed,
}

/// Tells how a relayed connection ended from what copying its bytes gave.
pub fn relay_end(copied: Result<(u64, u64), IoErrorKind>) -> (end: RelayEnd)
    ensures
        end == (match copied {
            Ok((to_upstream, to_client)) => RelayEnd::Closed { to_upstream, to_client },
            Err(IoErrorKind::Other) => RelayEnd::Failed,
            Err(_) => RelayEnd::Disconnected,
        }),
{
    match copied {
        Ok((to_upstream, to_client)) => RelayEnd::Closed { to_upstream, to_client },
        Err(kind) => {
            if is_routine_disconnect(kind) {
                RelayEnd::Disconnected
            } else {
                RelayEnd::Failed
            }
        },
    }
}

} // verus!
