use construct_relay::addr::IpAddr;
use construct_relay::conn::{
    is_routine_disconnect, next_step, relay_end, ConnAction, ConnEvent, ConnState, ConnStep,
    IoErrorKind, RelayEnd, Transport,
};
use construct_relay::http::{decoy_head, extract_http_path, DECOY_BODY};
use construct_relay::text::decimal_text;
use construct_relay::identity::{
    next_identity_step, obfs4_state_path, IdentityAction, IdentityEvent, IdentityState,
};
use construct_relay::upstream::{
    upstream_host, upstream_link, upstream_protocols, upstream_roots, upstream_server_name,
    UpstreamLink,
};
use construct_relay::webtunnel::{valid_wt_paths_at, WtTokenCache};

const PEER: IpAddr = IpAddr::V4(0x0102_0304);

#[test]
fn request_path_is_the_second_word() {
    assert_eq!(extract_http_path(b"GET /path HTTP/1.1\r\nHost: x\r\n\r\n"), Some("/path"));
    assert_eq!(extract_http_path(b"GET /path HTTP/1.1\n"), Some("/path"));
    assert_eq!(extract_http_path(b"GET /path\r\n"), Some("/path"));
    assert_eq!(extract_http_path(b"GET /a b c d\r\n"), Some("/a"));
    assert_eq!(extract_http_path(b"GET  /a\r\n"), Some(""));
    assert_eq!(extract_http_path(b" /a\r\n"), Some("/a"));
    assert_eq!(extract_http_path("GET /\u{43f}\u{20ac} x\r\n".as_bytes()), Some("/\u{43f}\u{20ac}"));
    assert_eq!(extract_http_path(b"GET /a x\r\n\xff"), Some("/a"));
}

#[test]
fn path_is_settled_once_the_line_ends() {
    for line in [&b"GET /path HTTP/1.1\r"[..], &b"GET\n"[..], &b"G\xff x\r\n"[..]] {
        for rest in [&b""[..], &b"GET /other x\r\n"[..], &b"\xff\xfe \n"[..]] {
            let longer = [line, rest].concat();
            assert_eq!(extract_http_path(&longer), extract_http_path(line));
        }
    }
}

#[test]
fn request_without_path_has_none() {
    assert_eq!(extract_http_path(b""), None);
    assert_eq!(extract_http_path(b"GET /path HTTP/1.1"), None);
    assert_eq!(extract_http_path(b"GET\r\n"), None);
    assert_eq!(extract_http_path(b"\r\nGET /path HTTP/1.1\r\n"), None);
    assert_eq!(extract_http_path(b"GET /\xff HTTP/1.1\r\n"), None);
    assert_eq!(extract_http_path(b"GET /a \xc3\r\n"), None);
}

#[test]
fn decoy_looks_like_a_plain_server() {
    assert_eq!(
        decoy_head(),
        "HTTP/1.1 404 Not Found\r\nServer: nginx\r\nContent-Type: text/html\r\n\
         Content-Length: 146\r\nConnection: close\r\n\r\n"
    );
    assert_eq!(DECOY_BODY.len(), 146);
    assert!(DECOY_BODY.starts_with("<html>\r\n<head><title>404 Not Found</title></head>\r\n"));
    assert!(DECOY_BODY.ends_with("<hr><center>nginx</center>\r\n</body>\r\n</html>\r\n"));
}

#[test]
fn numbers_are_written_in_decimal() {
    for n in [0, 1, 9, 10, 99, 100, 146, 4096, usize::MAX] {
        assert_eq!(decimal_text(n), n.to_string());
    }
}

#[test]
fn host_stands_before_the_port() {
    assert_eq!(upstream_host("ams.konstruct.cc:443"), "ams.konstruct.cc");
    assert_eq!(upstream_host("ams.konstruct.cc"), "ams.konstruct.cc");
    assert_eq!(upstream_host("10.0.0.1:80"), "10.0.0.1");
    assert_eq!(upstream_host("[2001:db8::1]:443"), "2001:db8::1");
    assert_eq!(upstream_host("[2001:db8::1"), "2001:db8::1");
    assert_eq!(upstream_host("[]:1"), "");
    assert_eq!(upstream_host("2001:db8::1"), "2001");
    assert_eq!(upstream_host(""), "");
}

#[test]
fn server_name_is_checked() {
    let dns = upstream_server_name("ams.konstruct.cc:443").unwrap();
    assert_eq!(dns.to_str(), "ams.konstruct.cc");
    let six = upstream_server_name("[2001:db8::1]:443").unwrap();
    assert_eq!(six.to_str(), "2001:db8::1");
    let four = upstream_server_name("10.0.0.1:80").unwrap();
    assert_eq!(four.to_str(), "10.0.0.1");
    assert_eq!(upstream_server_name("bad host:443").unwrap_err().host, "bad host");
    assert_eq!(upstream_server_name(":443").unwrap_err().host, "");
}

#[test]
fn state_file_lies_in_the_state_directory() {
    assert_eq!(obfs4_state_path("/data"), "/data/relay.obfs4");
}

fn step(state: ConnState, event: ConnEvent<'_>, valid: &[String]) -> ConnStep {
    next_step(state, event, PEER, &[], valid)
}

fn done(action: ConnAction, record_failure: bool) -> ConnStep {
    ConnStep { state: ConnState::Done, action, record_failure }
}

#[test]
fn tls_comes_first() {
    assert_eq!(
        step(ConnState::Tls, ConnEvent::TlsAccepted, &[]),
        ConnStep {
            state: ConnState::FirstByte,
            action: ConnAction::PeekFirstByte,
            record_failure: false
        }
    );
    assert_eq!(
        step(ConnState::Tls, ConnEvent::TlsFailed, &[]),
        done(ConnAction::Close, false)
    );
    assert_eq!(
        step(ConnState::Tls, ConnEvent::TlsTimedOut, &[]),
        done(ConnAction::Close, false)
    );
}

#[test]
fn first_byte_selects_the_transport() {
    let web = step(ConnState::FirstByte, ConnEvent::Buffered(b"GET /"), &[]);
    assert_eq!(web.state, ConnState::Request);
    assert_eq!(web.action, ConnAction::PeekRequest);
    for bytes in [&b"POST"[..], &b"\x00"[..], &b"g"[..], &b"\xffGET"[..]] {
        let other = step(ConnState::FirstByte, ConnEvent::Buffered(bytes), &[]);
        assert_eq!(other.state, ConnState::Handshake(Transport::Obfs4));
        assert_eq!(other.action, ConnAction::Accept(Transport::Obfs4));
        assert!(!other.record_failure);
    }
    assert_eq!(
        step(ConnState::FirstByte, ConnEvent::Buffered(b""), &[]),
        done(ConnAction::Close, false)
    );
    assert_eq!(
        step(ConnState::FirstByte, ConnEvent::ReadFailed, &[]),
        done(ConnAction::Close, false)
    );
}

#[test]
fn valid_path_leads_to_relay() {
    let valid = valid_wt_paths_at("cert", "/x", 1);
    let request = format!("GET {} HTTP/1.1\r\nUpgrade: websocket\r\n", valid[2]);
    let accepted = step(ConnState::Request, ConnEvent::Buffered(request.as_bytes()), &valid);
    assert_eq!(accepted.state, ConnState::Handshake(Transport::WebTunnel));
    assert_eq!(accepted.action, ConnAction::Accept(Transport::WebTunnel));
    assert!(!accepted.record_failure);
    assert_eq!(
        step(accepted.state, ConnEvent::HandshakeDone, &valid),
        done(ConnAction::Relay, false)
    );
    assert_eq!(
        step(accepted.state, ConnEvent::HandshakeFailed, &valid),
        done(ConnAction::Close, false)
    );
}

#[test]
fn empty_base_path_turns_webtunnel_off() {
    let accepted = WtTokenCache::new_at("cert", "", 1).get();
    let mut requests: Vec<String> = valid_wt_paths_at("cert", "", 1)
        .iter()
        .map(|path| format!("GET {path} HTTP/1.1\r\n"))
        .collect();
    requests.push("GET  HTTP/1.1\r\n".to_string());
    for request in requests {
        assert_eq!(
            step(ConnState::Request, ConnEvent::Buffered(request.as_bytes()), &accepted),
            done(ConnAction::Decoy, true)
        );
    }
}

#[test]
fn other_requests_get_the_decoy() {
    let valid = valid_wt_paths_at("cert", "/x", 1);
    for request in [&b"GET / HTTP/1.1\r\n"[..], &b"GET"[..], &b"G\xff\r\n"[..]] {
        assert_eq!(
            step(ConnState::Request, ConnEvent::Buffered(request), &valid),
            done(ConnAction::Decoy, true)
        );
    }
    assert_eq!(
        step(ConnState::Request, ConnEvent::ReadFailed, &valid),
        done(ConnAction::Decoy, true)
    );
}

#[test]
fn obfs4_failure_counts() {
    let state = ConnState::Handshake(Transport::Obfs4);
    assert_eq!(
        step(state, ConnEvent::HandshakeFailed, &[]),
        done(ConnAction::Close, true)
    );
    assert_eq!(
        step(state, ConnEvent::HandshakeDone, &[]),
        done(ConnAction::Relay, false)
    );
}

#[test]
fn trusted_proxies_never_count() {
    let proxies = [(IpAddr::V4(0x0102_0000), 16)];
    let decoy = next_step(
        ConnState::Request,
        ConnEvent::Buffered(b"GET / HTTP/1.1\r\n"),
        PEER,
        &proxies,
        &[],
    );
    assert_eq!(decoy, done(ConnAction::Decoy, false));
    let failed = next_step(
        ConnState::Handshake(Transport::Obfs4),
        ConnEvent::HandshakeFailed,
        PEER,
        &proxies,
        &[],
    );
    assert_eq!(failed, done(ConnAction::Close, false));
}

#[test]
fn routine_disconnects_are_told_apart() {
    assert!(is_routine_disconnect(IoErrorKind::ConnectionReset));
    assert!(is_routine_disconnect(IoErrorKind::BrokenPipe));
    assert!(is_routine_disconnect(IoErrorKind::ConnectionAborted));
    assert!(is_routine_disconnect(IoErrorKind::UnexpectedEof));
    assert!(!is_routine_disconnect(IoErrorKind::Other));
}

#[test]
fn relay_end_is_told_apart() {
    assert_eq!(
        relay_end(Ok((10, 20))),
        RelayEnd::Closed { to_upstream: 10, to_client: 20 }
    );
    assert_eq!(relay_end(Err(IoErrorKind::BrokenPipe)), RelayEnd::Disconnected);
    assert_eq!(relay_end(Err(IoErrorKind::Other)), RelayEnd::Failed);
}

#[test]
fn upstream_link_needs_a_name_only_for_tls() {
    assert!(matches!(upstream_link("bad host:1", false), Ok(UpstreamLink::Plain)));
    assert!(matches!(upstream_link("bad host:1", true), Err(e) if e.host == "bad host"));
    match upstream_link("ams.konstruct.cc:443", true) {
        Ok(UpstreamLink::Tls(name)) => assert_eq!(name.to_str(), "ams.konstruct.cc"),
        _ => panic!("a name was expected"),
    }
}

#[test]
fn stored_identity_is_loaded() {
    let (state, action) = next_identity_step(IdentityState::Looking, IdentityEvent::Found);
    assert_eq!(action, IdentityAction::Read);
    assert_eq!(
        next_identity_step(state, IdentityEvent::Failed).1,
        IdentityAction::StopUnreadable
    );
    let (state, action) = next_identity_step(state, IdentityEvent::Succeeded);
    assert_eq!(action, IdentityAction::Decode);
    assert_eq!(
        next_identity_step(state, IdentityEvent::Failed).1,
        IdentityAction::StopCorrupt
    );
    let (state, action) = next_identity_step(state, IdentityEvent::Succeeded);
    assert_eq!((state, action), (IdentityState::Settled, IdentityAction::Use));
}

#[test]
fn new_identity_is_written_before_use() {
    let (state, action) = next_identity_step(IdentityState::Looking, IdentityEvent::NotFound);
    assert_eq!(action, IdentityAction::GenerateAndMakeDir);
    assert_eq!(
        next_identity_step(state, IdentityEvent::Failed).1,
        IdentityAction::StopNoDir
    );
    let (state, action) = next_identity_step(state, IdentityEvent::Succeeded);
    assert_eq!(action, IdentityAction::Write);
    assert_eq!(
        next_identity_step(state, IdentityEvent::Failed).1,
        IdentityAction::StopUnwritable
    );
    let (state, action) = next_identity_step(state, IdentityEvent::Succeeded);
    assert_eq!((state, action), (IdentityState::Settled, IdentityAction::Use));
}

fn root_certificate(name: &str) -> Vec<u8> {
    let made = rcgen::generate_simple_self_signed(vec![name.to_string()]).unwrap();
    made.cert.der().to_vec()
}

#[test]
fn usable_certificates_become_roots_in_order() {
    let first = root_certificate("first.example");
    let second = root_certificate("second.example");
    let mut cut = first.clone();
    cut.pop();
    let certs = vec![
        b"nonsense".to_vec(),
        first.clone(),
        cut,
        Vec::new(),
        second.clone(),
        first.clone(),
    ];
    let store = upstream_roots(&certs);
    assert_eq!(store.len(), 3);
    let mut expected = rustls::RootCertStore::empty();
    for der in [&first, &second, &first] {
        expected.add(der.clone().into()).unwrap();
    }
    assert_eq!(store.roots, expected.roots);
    assert!(store.roots[0] != store.roots[1]);
}

#[test]
fn no_certificates_give_no_roots() {
    assert!(upstream_roots(&[]).is_empty());
    assert!(upstream_roots(&[vec![0x30, 0x00]]).is_empty());
}

#[test]
fn upstream_is_offered_http2_alone() {
    assert_eq!(upstream_protocols(), vec![b"h2".to_vec()]);
}
