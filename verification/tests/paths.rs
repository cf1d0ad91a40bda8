use construct_relay::digest::spki_fingerprint;
use construct_relay::webtunnel::{
    accepted_wt_paths_at, auth_period_at, clock_is_wrong, current_auth_period, is_valid_path, path_with_token,
    token_from_digest, token_message, valid_wt_paths_at, webtunnel_token, WtTokenCache,
};

#[test]
fn tokens_are_the_head_of_the_digest() {
    assert_eq!(webtunnel_token("", 0), "f8ff43266613fdf9");
    assert_eq!(webtunnel_token("cert", 0), "78fe6dc10c788b33");
    assert_eq!(webtunnel_token("cert", 1), "1fd2ac58f9be8ae4");
    assert_eq!(webtunnel_token("abc+/DEF==", 5785632), "1e8834e1067f3dd9");
    assert_eq!(
        webtunnel_token("\u{43f}\u{440}\u{438}\u{43c}\u{435}\u{440}", u64::MAX),
        "799aea6e9f0606c4"
    );
}

#[test]
fn tokens_are_sixteen_hex_digits() {
    for period in [0, 1, 300, 5785632, u64::MAX] {
        let token = webtunnel_token("some cert", period);
        assert_eq!(token.len(), 16);
        assert!(token.bytes().all(|b| b.is_ascii_digit() || (b'a'..=b'f').contains(&b)));
    }
}

#[test]
fn message_is_cert_label_and_period() {
    assert_eq!(
        token_message("cert", 0x0102_0304_0506_0708),
        b"certwebtunnel-v1\x01\x02\x03\x04\x05\x06\x07\x08".to_vec()
    );
    assert_eq!(token_message("", 255), b"webtunnel-v1\0\0\0\0\0\0\0\xff".to_vec());
}

#[test]
fn digest_gives_token() {
    let digest: Vec<u8> = (0xf0..=0xff).chain(0..16).collect();
    assert_eq!(token_from_digest(&digest), "f0f1f2f3f4f5f6f7");
    assert_eq!(token_from_digest(&[0, 1, 9, 10, 15, 16, 0xab, 0xcd]), "0001090a0f10abcd");
}

#[test]
fn path_is_base_slash_token() {
    assert_eq!(path_with_token("/api/stream", "00ff"), "/api/stream/00ff");
    assert_eq!(path_with_token("", "00ff"), "/00ff");
}

#[test]
fn paths_cover_three_periods() {
    assert_eq!(
        valid_wt_paths_at("abc+/DEF==", "/api/stream", 5785632),
        vec![
            "/api/stream/bf781e836c2b868e",
            "/api/stream/1e8834e1067f3dd9",
            "/api/stream/0bcd2476c8e328ec",
        ]
    );
}

#[test]
fn first_period_has_none_before() {
    assert_eq!(
        valid_wt_paths_at("cert", "/x", 0),
        vec!["/x/78fe6dc10c788b33", "/x/78fe6dc10c788b33", "/x/1fd2ac58f9be8ae4"]
    );
    assert_eq!(
        valid_wt_paths_at("cert", "/x", 1),
        vec!["/x/78fe6dc10c788b33", "/x/1fd2ac58f9be8ae4", "/x/f045c86f5a3c2a41"]
    );
}

#[test]
fn valid_paths_are_recognised() {
    let paths = valid_wt_paths_at("cert", "/x", 1);
    assert!(is_valid_path(&paths, "/x/78fe6dc10c788b33"));
    assert!(is_valid_path(&paths, "/x/f045c86f5a3c2a41"));
    assert!(!is_valid_path(&paths, "/x/78FE6DC10C788B33"));
    assert!(!is_valid_path(&paths, "/x/"));
    assert!(!is_valid_path(&paths, "/y/78fe6dc10c788b33"));
    assert!(!is_valid_path(&paths, "/x/78fe6dc10c788b33/"));
    assert!(!is_valid_path(&[], "/x/78fe6dc10c788b33"));
}

#[test]
fn periods_are_five_minutes() {
    assert_eq!(auth_period_at(0), 0);
    assert_eq!(auth_period_at(299), 0);
    assert_eq!(auth_period_at(300), 1);
    assert_eq!(auth_period_at(1_735_689_600), 5785632);
}

#[test]
fn clock_drift_is_tolerated() {
    let client_now = 1_735_689_725;
    let path = path_with_token("/p", &webtunnel_token("cert", auth_period_at(client_now)));
    for relay_now in [client_now - 300, client_now - 1, client_now, client_now + 300] {
        let paths = valid_wt_paths_at("cert", "/p", auth_period_at(relay_now));
        assert!(is_valid_path(&paths, &path));
    }
    let late = valid_wt_paths_at("cert", "/p", auth_period_at(client_now + 600));
    assert!(!is_valid_path(&late, &path));
}

#[test]
fn refresh_interval_keeps_current_path() {
    for refreshed in [0, 1, 149, 150, 299, 1_735_689_599] {
        let paths = valid_wt_paths_at("cert", "/p", auth_period_at(refreshed));
        let now = refreshed + 150;
        let path = path_with_token("/p", &webtunnel_token("cert", auth_period_at(now)));
        assert!(is_valid_path(&paths, &path));
    }
}

#[test]
fn early_clock_is_wrong() {
    assert!(clock_is_wrong(0));
    assert!(clock_is_wrong(1_735_689_599));
    assert!(!clock_is_wrong(1_735_689_600));
}

#[test]
fn cache_holds_and_replaces_paths() {
    let mut cache = WtTokenCache::new_at("cert", "/x", 1);
    assert_eq!(cache.get(), valid_wt_paths_at("cert", "/x", 1));
    cache.refresh_at("other", "/y", 7);
    assert_eq!(cache.get(), valid_wt_paths_at("other", "/y", 7));
}

#[test]
fn empty_base_path_accepts_nothing() {
    assert_eq!(accepted_wt_paths_at("cert", "", 1), Vec::<String>::new());
    assert_eq!(accepted_wt_paths_at("cert", "/x", 1), valid_wt_paths_at("cert", "/x", 1));
    assert_eq!(WtTokenCache::new("cert", "").get(), Vec::<String>::new());
    let mut cache = WtTokenCache::new_at("cert", "", 1);
    assert_eq!(cache.get(), Vec::<String>::new());
    cache.refresh_at("cert", "/x", 1);
    assert_eq!(cache.get().len(), 3);
    cache.refresh("cert", "");
    assert_eq!(cache.get(), Vec::<String>::new());
}

#[test]
fn cache_follows_the_clock() {
    let before = current_auth_period();
    let mut cache = WtTokenCache::new("cert", "/x");
    let made = cache.get();
    cache.refresh("cert", "/z");
    let refreshed = cache.get();
    let after = current_auth_period();
    assert!((before..=after).any(|p| made == valid_wt_paths_at("cert", "/x", p)));
    assert!((before..=after).any(|p| refreshed == valid_wt_paths_at("cert", "/z", p)));
    assert!(!clock_is_wrong(before * 300));
}

#[test]
fn fingerprint_is_the_digest_in_hex() {
    assert_eq!(
        spki_fingerprint(b"hello world"),
        "b94d27b9934d3e08a52e52d7da7dabfac484efe37a5380ee9088f7ace2efcde9"
    );
}
