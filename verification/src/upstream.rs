//! How the relay reaches the upstream server.

use rustls::pki_types::{CertificateDer, InvalidDnsNameError, ServerName};
use rustls::RootCertStore;
use vstd::prelude::*;
use vstd::utf8;

use crate::config::UPSTREAM_ALPN;
use crate::text;

verus! {

/// A server's name as the TLS handshake takes it, carried through unread.
#[verifier::external_type_specification]
#[verifier::external_body]
pub struct ExServerName<'a>(ServerName<'a>);

/// That a text is not a server's name, carried through unread.
#[verifier::external_type_specification]
#[verifier::external_body]
pub struct ExInvalidDnsNameError(InvalidDnsNameError);

/// The server's name that a text gives, where it gives one.
pub uninterp spec fn server_name_of(host: Seq<char>) -> Option<ServerName<'static>>;

/// `ServerName::try_from` of `rustls::pki_types`: whether the text is a DNS
/// name or an IP address, and which name it then gives, depends on the text alone.
#[verifier::external_body]
fn server_name(host: &str) -> (r: Result<ServerName<'static>, InvalidDnsNameError>)
    ensures
        (match r {
            Ok(name) => Some(name),
            Err(_) => None,
        }) == server_name_of(host@),
{
    match ServerName::try_from(host) {
        Ok(name) => Ok(name.to_owned()),
        Err(e) => Err(e),
    }
}

/// The root certificates that TLS connections are checked against.
#[verifier::external_type_specification]
#[verifier::external_body]
pub struct ExRootCertStore(RootCertStore);

/// Why a certificate cannot be a root, carried through unread.
#[verifier::external_type_specification]
#[verifier::external_body]
pub struct ExTlsError(rustls::Error);

/// What a root certificate is trusted for: its subject, its public key, and the
/// constraints on the names below it where it has any.
pub type Anchor = (Seq<u8>, Seq<u8>, Option<Seq<u8>>);

/// The roots in a store, in the order in which they came in.
pub uninterp spec fn anchors_in(store: RootCertStore) -> Seq<Anchor>;

/// The root that an encoded certificate gives, where it gives one.
pub uninterp spec fn anchor_of(der: Seq<u8>) -> Option<Anchor>;

/// `RootCertStore::empty` of `rustls` makes a store without roots.
pub assume_specification[ RootCertStore::empty ]() -> (store: RootCertStore)
    ensures
        anchors_in(store) == Seq::<Anchor>::empty(),
;

/// `RootCertStore::add` of `rustls`: whether the encoded certificate can be a
/// root, and which root it gives, depends on its bytes alone. The root goes
/// behind those in the store; without one the store stays as it is.
#[verifier::external_body]
fn add_root(store: &mut RootCertStore, der: &[u8]) -> (r: Result<(), rustls::Error>)
    ensures
        r is Ok <==> anchor_of(der@) is Some,
        anchors_in(*final(store)) == (match anchor_of(der@) {
            Some(anchor) => anchors_in(*old(store)).push(anchor),
            None => anchors_in(*old(store)),
        }),
{
    store.add(CertificateDer::from(der))
}

/// The bytes of some byte vectors.
pub open spec fn byte_strings(v: Seq<Vec<u8>>) -> Seq<Seq<u8>> {
    Seq::new(v.len(), |i: int| v[i]@)
}

/// The roots that some encoded certificates give, in order; those that give
/// none are skipped.
pub open spec fn usable_roots(ders: Seq<Seq<u8>>) -> Seq<Anchor>
    decreases ders.len(),
{
    if ders.len() == 0 {
        Seq::empty()
    } else {
        let before = usable_roots(ders.drop_last());
        match anchor_of(ders.last()) {
            Some(anchor) => before.push(anchor),
            None => before,
        }
    }
}

/// The roots that the upstream server's certificate is checked against, out of
/// the system's encoded certificates. Those that cannot be roots are skipped.
pub fn upstream_roots(certs: &[Vec<u8>]) -> (store: RootCertStore)
    ensures
        anchors_in(store) == usable_roots(byte_strings(certs@)),
{
    let mut store: RootCertStore = RootCertStore::empty();
    let ghost ders = byte_strings(certs@);
    let mut i: usize = 0;
    assert(ders.take(0) =~= Seq::<Seq<u8>>::empty());
    while i < certs.len()
        invariant
            i <= certs@.len(),
            ders == byte_strings(certs@),
            anchors_in(store) == usable_roots(ders.take(i as int)),
        decreases certs@.len() - i,
    {
        assert(ders.take(i + 1).drop_last() =~= ders.take(i as int));
        assert(ders.take(i + 1).last() == certs@[i as int]@);
        let _ = add_root(&mut store, certs[i].as_slice());
        i = i + 1;
    }
    assert(ders.take(i as int) =~= ders);
    store
}

/// The protocols offered to the upstream server in the TLS handshake: HTTP/2 alone.
pub fn upstream_protocols() -> (protocols: Vec<Vec<u8>>)
    ensures
        byte_strings(protocols@) == seq![utf8::encode_utf8(UPSTREAM_ALPN@)],
{
    let mut name: Vec<u8> = Vec::new();
    name.extend_from_slice(UPSTREAM_ALPN.as_bytes());
    assert(name@ =~= utf8::encode_utf8(UPSTREAM_ALPN@));
    let mut protocols: Vec<Vec<u8>> = Vec::new();
    protocols.push(name);
    assert(byte_strings(protocols@) =~= seq![utf8::encode_utf8(UPSTREAM_ALPN@)]);
    protocols
}

/// Certificates are taken one by one: those before and behind give the roots
/// that they give on their own.
pub proof fn law_roots_are_taken_one_by_one(a: Seq<Seq<u8>>, b: Seq<Seq<u8>>)
    ensures
        usable_roots(a + b) == usable_roots(a) + usable_roots(b),
    decreases b.len(),
{
    if b.len() == 0 {
        assert(a + b =~= a);
        assert(usable_roots(a) + usable_roots(b) =~= usable_roots(a));
    } else {
        assert((a + b).drop_last() =~= a + b.drop_last());
        law_roots_are_taken_one_by_one(a, b.drop_last());
        assert(usable_roots(a + b) =~= usable_roots(a) + usable_roots(b));
    }
}

/// The store holds exactly the roots that the certificates give, each as often
/// as it is given.
pub proof fn law_every_usable_certificate_is_a_root(
    certs: &[Vec<u8>],
    store: RootCertStore,
    anchor: Anchor,
)
    requires
        call_ensures(upstream_roots, (certs,), store),
    ensures
        anchors_in(store).contains(anchor) <==> exists|i: int|
            0 <= i < certs@.len() && anchor_of((#[trigger] certs@[i])@) == Some(anchor),
        (forall|i: int| 0 <= i < certs@.len() ==> anchor_of((#[trigger] certs@[i])@) is Some)
            ==> anchors_in(store).len() == certs@.len() && forall|i: int|
            0 <= i < certs@.len() ==> anchor_of((#[trigger] certs@[i])@) == Some(
                anchors_in(store)[i],
            ),
{
    let ders = byte_strings(certs@);
    lemma_usable_roots(ders, anchor);
    assert forall|i: int| 0 <= i < certs@.len() implies ders[i] == (#[trigger] certs@[i])@ by {}
    if anchors_in(store).contains(anchor) {
        let i = choose|i: int|
            0 <= i < ders.len() && anchor_of(#[trigger] ders[i]) == Some(anchor);
        assert(anchor_of(certs@[i]@) == Some(anchor));
    }
    if exists|i: int| 0 <= i < certs@.len() && anchor_of((#[trigger] certs@[i])@) == Some(anchor) {
        let i = choose|i: int|
            0 <= i < certs@.len() && anchor_of((#[trigger] certs@[i])@) == Some(anchor);
        assert(anchor_of(ders[i]) == Some(anchor));
    }
    if forall|i: int| 0 <= i < certs@.len() ==> anchor_of((#[trigger] certs@[i])@) is Some {
        assert forall|i: int| 0 <= i < ders.len() implies anchor_of(#[trigger] ders[i]) is Some by {
            assert(anchor_of(certs@[i]@) is Some);
        }
        assert forall|i: int| 0 <= i < certs@.len() implies anchor_of((#[trigger] certs@[i])@)
            == Some(anchors_in(store)[i]) by {
            assert(anchor_of(ders[i]) == Some(usable_roots(ders)[i]));
        }
    }
}

proof fn lemma_usable_roots(ders: Seq<Seq<u8>>, anchor: Anchor)
    ensures
        usable_roots(ders).contains(anchor) <==> exists|i: int|
            0 <= i < ders.len() && anchor_of(#[trigger] ders[i]) == Some(anchor),
        (forall|i: int| 0 <= i < ders.len() ==> anchor_of(#[trigger] ders[i]) is Some)
            ==> usable_roots(ders).len() == ders.len() && forall|i: int|
            0 <= i < ders.len() ==> anchor_of(#[trigger] ders[i]) == Some(usable_roots(ders)[i]),
    decreases ders.len(),
{
    if ders.len() > 0 {
        let before = ders.drop_last();
        let roots = usable_roots(before);
        let all = usable_roots(ders);
        lemma_usable_roots(before, anchor);
        assert(ders.last() == ders[ders.len() - 1]);
        assert forall|i: int| 0 <= i < before.len() implies before[i] == #[trigger] ders[i] by {}
        if all.contains(anchor) {
            let k = all.index_of(anchor);
            if k < roots.len() {
                assert(roots[k] == anchor);
                let i = choose|i: int|
                    0 <= i < before.len() && anchor_of(#[trigger] before[i]) == Some(anchor);
                assert(anchor_of(ders[i]) == Some(anchor));
            } else {
                assert(anchor_of(ders[ders.len() - 1]) == Some(anchor));
            }
        }
        if exists|i: int| 0 <= i < ders.len() && anchor_of(#[trigger] ders[i]) == Some(anchor) {
            let i = choose|i: int|
                0 <= i < ders.len() && anchor_of(#[trigger] ders[i]) == Some(anchor);
            if i < before.len() {
                assert(anchor_of(before[i]) == Some(anchor));
                let k = roots.index_of(anchor);
                assert(all[k] == anchor);
            } else {
                assert(all[all.len() - 1] == anchor);
            }
        }
        if forall|i: int| 0 <= i < ders.len() ==> anchor_of(#[trigger] ders[i]) is Some {
            assert forall|i: int| 0 <= i < before.len() implies anchor_of(
                #[trigger] before[i],
            ) is Some by {
                assert(anchor_of(ders[i]) is Some);
            }
            assert(anchor_of(ders[ders.len() - 1]) is Some);
            assert forall|i: int| 0 <= i < ders.len() implies anchor_of(#[trigger] ders[i]) == Some(
                all[i],
            ) by {
                if i < before.len() {
                    assert(anchor_of(before[i]) == Some(roots[i]));
                }
            }
        }
    }
}

/// The upstream server is offered `h2` and nothing else.
pub proof fn law_http2_alone_is_offered(protocols: Vec<Vec<u8>>)
    requires
        call_ensures(upstream_protocols, (), protocols),
    ensures
        protocols@.len() == 1,
        protocols@[0]@ == seq![0x68u8, 0x32u8],
{
    reveal_strlit("h2");
    utf8::is_ascii_chars_encode_utf8("h2"@);
    let b = byte_strings(protocols@);
    assert(b.len() == 1);
    assert(b[0] == protocols@[0]@);
    assert(utf8::encode_utf8("h2"@)[0] == "h2"@[0] as u8);
    assert(utf8::encode_utf8("h2"@)[1] == "h2"@[1] as u8);
    assert(protocols@[0]@ =~= seq![0x68u8, 0x32u8]);
}

/// A certificate that cannot be a root is skipped, and no other with it.
pub proof fn law_unusable_certificate_is_skipped(
    a: Seq<Seq<u8>>,
    der: Seq<u8>,
    b: Seq<Seq<u8>>,
)
    requires
        anchor_of(der) is None,
    ensures
        usable_roots(a.push(der) + b) == usable_roots(a + b),
{
    law_roots_are_taken_one_by_one(a, b);
    law_roots_are_taken_one_by_one(a.push(der), b);
    assert(a.push(der).drop_last() =~= a);
}

/// The host in `host:port` or `[host]:port`.
pub open spec fn host_of(upstream: Seq<char>) -> Seq<char> {
    if upstream.len() > 0 && upstream[0] == '[' {
        let rest = upstream.skip(1);
        rest.take(text::find(rest, ']') as int)
    } else {
        upstream.take(text::find(upstream, ':') as int)
    }
}

/// The host in `host:port` or `[host]:port`.
pub fn upstream_host(upstream: &str) -> (host: &str)
    ensures
        host@ == host_of(upstream@),
{
    let chars: Vec<char> = text::chars_of(upstream);
    if chars.len() > 0 && chars[0] == '[' {
        let rest: &[char] = vstd::slice::slice_subrange(chars.as_slice(), 1, chars.len());
        assert(rest@ =~= upstream@.skip(1));
        let n: usize = text::find_char(rest, ']');
        let host: &str = vstd::string::StrSliceExecFns::substring_char(upstream, 1, 1 + n);
        assert(host@ =~= rest@.take(n as int));
        host
    } else {
        let n: usize = text::find_char(chars.as_slice(), ':');
        let host: &str = vstd::string::StrSliceExecFns::substring_char(upstream, 0, n);
        assert(host@ =~= upstream@.take(n as int));
        host
    }
}

/// The upstream address holds no server's name.
#[derive(Debug)]
pub struct InvalidUpstream {
    /// What stands in its place.
    pub host: String,
}

/// The name that the upstream server is asked to prove in the TLS handshake.
pub fn upstream_server_name(upstream: &str) -> (r: Result<ServerName<'static>, InvalidUpstream>)
    ensures
        r is Ok <==> server_name_of(host_of(upstream@)) is Some,
        r matches Ok(name) ==> Some(name) == server_name_of(host_of(upstream@)),
        r matches Err(e) ==> e.host@ == host_of(upstream@),
{
    let host: &str = upstream_host(upstream);
    match server_name(host) {
        Ok(name) => Ok(name),
        Err(_) => Err(InvalidUpstream { host: host.to_owned() }),
    }
}

/// How the relay talks to the upstream server.
pub enum UpstreamLink {
    /// In the clear.
    Plain,
    /// Over TLS, to a server that proves this name.
    Tls(ServerName<'static>),
}

/// Decides how to talk to the upstream server. Without TLS no name is needed.
pub fn upstream_link(upstream: &str, tls: bool) -> (r: Result<UpstreamLink, InvalidUpstream>)
    ensures
        r is Ok <==> !tls || server_name_of(host_of(upstream@)) is Some,
        r matches Ok(UpstreamLink::Plain) ==> !tls,
        r matches Ok(UpstreamLink::Tls(name)) ==> tls && Some(name) == server_name_of(
            host_of(upstream@),
        ),
        r matches Err(e) ==> e.host@ == host_of(upstream@),
{
    if tls {
        match upstream_server_name(upstream) {
            Ok(name) => Ok(UpstreamLink::Tls(name)),
            Err(e) => Err(e),
        }
    } else {
        Ok(UpstreamLink::Plain)
    }
}

/// A host without a colon that is written with a port is read back.
pub proof fn law_host_is_read_before_port(host: Seq<char>, port: Seq<char>)
    requires
        !host.contains(':'),
        host.len() > 0 ==> host[0] != '[',
    ensures
        host_of(host + seq![':'] + port) == host,
{
    let upstream = host + seq![':'] + port;
    assert forall|i: int| 0 <= i < host.len() implies upstream[i] != ':' by {
        assert(upstream[i] == host[i]);
        assert(host.contains(host[i]));
    }
    if host.len() > 0 {
        assert(upstream[0] == host[0]);
    }
    text::lemma_find_unique(upstream, ':', host.len() as int);
    assert(upstream.take(host.len() as int) =~= host);
}

/// A host without a port stands for itself, and an opening bracket that is never
/// closed is left off.
pub proof fn law_host_without_port_is_read(host: Seq<char>)
    ensures
        !host.contains(':') && (host.len() > 0 ==> host[0] != '[') ==> host_of(host) == host,
        !host.contains(']') ==> host_of(seq!['['] + host) == host,
{
    if !host.contains(':') && (host.len() > 0 ==> host[0] != '[') {
        assert forall|i: int| 0 <= i < host.len() implies host[i] != ':' by {
            assert(host.contains(host[i]));
        }
        text::lemma_find_unique(host, ':', host.len() as int);
        assert(host.take(host.len() as int) =~= host);
    }
    if !host.contains(']') {
        let upstream = seq!['['] + host;
        assert(upstream.skip(1) =~= host);
        assert forall|i: int| 0 <= i < host.len() implies host[i] != ']' by {
            assert(host.contains(host[i]));
        }
        text::lemma_find_unique(host, ']', host.len() as int);
        assert(host.take(host.len() as int) =~= host);
    }
}

/// How the upstream server is reached, by calls: in the clear exactly where TLS
/// is off, and else over TLS to a server that proves the name that its host
/// gives; a host that gives none is the error.
pub proof fn law_link_follows_tls_and_host(
    upstream: &str,
    tls: bool,
    host: &str,
    r: Result<UpstreamLink, InvalidUpstream>,
)
    requires
        call_ensures(upstream_host, (upstream,), host),
        call_ensures(upstream_link, (upstream, tls), r),
    ensures
        !tls ==> (r matches Ok(link) && link is Plain),
        tls && server_name_of(host@) is Some ==> (r matches Ok(UpstreamLink::Tls(name))
            && server_name_of(host@) == Some(name)),
        tls && server_name_of(host@) is None ==> (r matches Err(e) && e.host@ == host@),
{
}

/// A host in brackets, such as an IPv6 address, is read back with all its colons.
pub proof fn law_bracketed_host_is_read(host: Seq<char>, port: Seq<char>)
    requires
        !host.contains(']'),
    ensures
        host_of(seq!['['] + host + seq![']', ':'] + port) == host,
{
    let upstream = seq!['['] + host + seq![']', ':'] + port;
    let rest = upstream.skip(1);
    assert forall|i: int| 0 <= i < host.len() implies rest[i] != ']' by {
        assert(rest[i] == host[i]);
        assert(host.contains(host[i]));
    }
    text::lemma_find_unique(rest, ']', host.len() as int);
    assert(rest.take(host.len() as int) =~= host);
}

} // verus!
