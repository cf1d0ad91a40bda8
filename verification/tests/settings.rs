use construct_relay::addr::IpAddr;
use construct_relay::config::{is_trusted_proxy, EnvVars, Settings, SettingsError};

fn unset() -> EnvVars {
    EnvVars {
        upstream: None,
        upstream_tls: None,
        listen_addr: None,
        alt_listen_addr: None,
        state_dir: None,
        tls_sni_host: None,
        wt_path: None,
        max_conns_per_ip: None,
        trusted_proxies: None,
    }
}

fn with_upstream() -> EnvVars {
    EnvVars {
        upstream: Some("ams.konstruct.cc:443".to_string()),
        ..unset()
    }
}

#[test]
fn upstream_is_required() {
    assert!(matches!(
        Settings::from_env(unset()),
        Err(SettingsError::MissingUpstream)
    ));
}

#[test]
fn defaults_apply() {
    let s = Settings::from_env(with_upstream()).unwrap();
    assert_eq!(s.upstream, "ams.konstruct.cc:443");
    assert!(s.upstream_tls);
    assert_eq!(s.listen, "0.0.0.0:443");
    assert_eq!(s.alt_listen, "");
    assert_eq!(s.state_dir, "/data");
    assert_eq!(s.sni, "fra1.digitaloceanspaces.com");
    assert_eq!(s.wt_path, "/api/stream");
    assert_eq!(s.max_conns_per_ip, 24);
    assert_eq!(s.trusted_proxies, vec![(IpAddr::V4(0xac10_0000), 12)]);
}

#[test]
fn default_proxies_are_the_docker_bridges() {
    let s = Settings::from_env(with_upstream()).unwrap();
    assert!(is_trusted_proxy(IpAddr::V4(0xac11_0001), &s.trusted_proxies));
    assert!(is_trusted_proxy(IpAddr::V4(0xac1f_ffff), &s.trusted_proxies));
    assert!(!is_trusted_proxy(IpAddr::V4(0xac20_0000), &s.trusted_proxies));
    let none = Settings::from_env(EnvVars {
        trusted_proxies: Some("".to_string()),
        ..with_upstream()
    });
    assert_eq!(none.unwrap().trusted_proxies, vec![]);
}

#[test]
fn set_variables_apply() {
    let s = Settings::from_env(EnvVars {
        upstream: Some("[::1]:50051".to_string()),
        upstream_tls: Some("FALSE".to_string()),
        listen_addr: Some("0.0.0.0:9894".to_string()),
        alt_listen_addr: Some("0.0.0.0:52143".to_string()),
        state_dir: Some("/var/lib/relay".to_string()),
        tls_sni_host: Some("storage.bunnycdn.com".to_string()),
        wt_path: Some("".to_string()),
        max_conns_per_ip: Some("7".to_string()),
        trusted_proxies: Some("127.0.0.1".to_string()),
    })
    .unwrap();
    assert_eq!(s.upstream, "[::1]:50051");
    assert!(!s.upstream_tls);
    assert_eq!(s.listen, "0.0.0.0:9894");
    assert_eq!(s.alt_listen, "0.0.0.0:52143");
    assert_eq!(s.state_dir, "/var/lib/relay");
    assert_eq!(s.sni, "storage.bunnycdn.com");
    assert_eq!(s.wt_path, "");
    assert_eq!(s.max_conns_per_ip, 7);
    assert_eq!(s.trusted_proxies, vec![(IpAddr::V4(0x7f00_0001), 32)]);
}

fn tls(value: &str) -> bool {
    let env = EnvVars {
        upstream_tls: Some(value.to_string()),
        ..with_upstream()
    };
    Settings::from_env(env).unwrap().upstream_tls
}

#[test]
fn upstream_tls_is_on_unless_turned_off() {
    assert!(!tls("false"));
    assert!(!tls("False"));
    assert!(!tls("0"));
    assert!(tls("true"));
    assert!(tls("1"));
    assert!(tls(""));
    assert!(tls("no"));
    assert!(tls("00"));
    assert!(tls(" false"));
}

fn max_conns(value: &str) -> usize {
    let env = EnvVars {
        max_conns_per_ip: Some(value.to_string()),
        ..with_upstream()
    };
    Settings::from_env(env).unwrap().max_conns_per_ip
}

#[test]
fn connection_limit_falls_back_to_default() {
    assert_eq!(max_conns("0"), 0);
    assert_eq!(max_conns("+12"), 12);
    assert_eq!(max_conns("0012"), 12);
    assert_eq!(max_conns(&usize::MAX.to_string()), usize::MAX);
    for bad in ["", "+", "-1", " 5", "5 ", "1_000", "many", "18446744073709551616"] {
        assert_eq!(max_conns(bad), 24, "{bad}");
    }
}
