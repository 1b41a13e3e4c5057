use sillad_sosistab3::cookie::{find_delimiter, Member};
use sillad_sosistab3::{Cookie, ObfsParams};

#[test]
fn new_is_deterministic() {
    let a = Cookie::new("correct horse---{\"obfs_timing\":true}");
    let b = Cookie::new("correct horse---{\"obfs_timing\":true}");
    assert_eq!(a.key(), b.key());
    assert_eq!(a.params(), b.params());
}

#[test]
fn new_reads_the_parameter_object() {
    let c = Cookie::new("cookie---{\"obfs_lengths\":true}");
    assert!(c.params().obfs_lengths);
    assert!(!c.params().obfs_timing);
    assert_eq!(*c.key(), blake3::derive_key("cookie", b"cookie"));
}

#[test]
fn new_reads_both_switches() {
    let c = Cookie::new("k---{\"obfs_timing\":true,\"obfs_lengths\":true}");
    assert_eq!(c.params(), ObfsParams { obfs_lengths: true, obfs_timing: true });
    let c = Cookie::new("k---{\"obfs_timing\":false,\"obfs_lengths\":false}");
    assert_eq!(c.params(), ObfsParams::default());
    let c = Cookie::new("k--- { \"obfs_timing\" : true, \"comment\" : [1, 2] } ");
    assert_eq!(c.params(), ObfsParams { obfs_lengths: false, obfs_timing: true });
}

#[test]
fn bare_token_has_default_params() {
    let c = Cookie::new("no delimiter here");
    assert_eq!(c.params(), ObfsParams::default());
    assert_eq!(*c.key(), blake3::derive_key("cookie", b"no delimiter here"));
    let c = Cookie::new("a--b-c--");
    assert_eq!(*c.key(), blake3::derive_key("cookie", b"a--b-c--"));
    let c = Cookie::new("");
    assert_eq!(*c.key(), blake3::derive_key("cookie", b""));
    assert_eq!(c.params(), ObfsParams::default());
}

#[test]
fn key_comes_from_what_stands_before_the_first_delimiter() {
    let c = Cookie::new("left---right---{\"obfs_lengths\":true}");
    assert_eq!(*c.key(), blake3::derive_key("cookie", b"left"));
    assert_eq!(c.params(), ObfsParams::default());
    let c = Cookie::new("----{}");
    assert_eq!(*c.key(), blake3::derive_key("cookie", b""));
    assert_eq!(c.params(), ObfsParams::default());
    let c = Cookie::new("---{}");
    assert_eq!(*c.key(), blake3::derive_key("cookie", b""));
    let c = Cookie::new("caf\u{e9}---{\"obfs_lengths\":true}");
    assert_eq!(*c.key(), blake3::derive_key("cookie", "caf\u{e9}".as_bytes()));
    assert!(c.params().obfs_lengths);
}

#[test]
fn unreadable_params_fall_back_to_default() {
    for tail in [
        "",
        "{",
        "not json",
        "[true,false]",
        "true",
        "null",
        "{\"obfs_lengths\":[]}",
        "{\"obfs_lengths\":{}}",
        "{\"obfs_lengths\":1}",
        "{\"obfs_lengths\":\"true\"}",
        "{\"obfs_lengths\":true,\"obfs_timing\":null}",
        "{\"obfs_lengths\":true} trailing",
    ] {
        let c = Cookie::new(&format!("token---{}", tail));
        assert_eq!(c.params(), ObfsParams::default(), "tail {:?}", tail);
        assert_eq!(*c.key(), blake3::derive_key("cookie", b"token"));
    }
}

#[test]
fn parse_tells_members_apart() {
    assert_eq!(ObfsParams::parse(b"{}"), ObfsParams::default());
    assert_eq!(
        ObfsParams::parse(b"{\"obfs_lengths\":true}"),
        ObfsParams { obfs_lengths: true, obfs_timing: false }
    );
    assert_eq!(
        ObfsParams::from_members(Member::Switch(true), Member::Absent),
        ObfsParams { obfs_lengths: true, obfs_timing: false }
    );
    assert_eq!(
        ObfsParams::from_members(Member::Absent, Member::Switch(true)),
        ObfsParams { obfs_lengths: false, obfs_timing: true }
    );
    assert_eq!(
        ObfsParams::from_members(Member::Switch(true), Member::Other),
        ObfsParams::default()
    );
    assert_eq!(
        ObfsParams::from_members(Member::Unreadable, Member::Unreadable),
        ObfsParams::default()
    );
}

#[test]
fn direction_keys_differ() {
    let c = Cookie::new("some cookie");
    assert_ne!(c.derive_key(true), c.derive_key(false));
    assert_eq!(c.derive_key(true), blake3::derive_key("server", c.key()));
    assert_eq!(c.derive_key(false), blake3::derive_key("client", c.key()));
    assert_ne!(c.derive_key(true), *c.key());
}

#[test]
fn to_string_shows_key_and_params() {
    let c = Cookie::from_key([0u8; 32], ObfsParams::default());
    assert_eq!(
        c.to_string(),
        "0000000000000000000000000000000000000000000000000000000000000000---{\"obfs_lengths\":false,\"obfs_timing\":false}"
    );
    let mut key = [0u8; 32];
    for (i, b) in key.iter_mut().enumerate() {
        *b = (i as u8).wrapping_mul(17).wrapping_add(0xa5);
    }
    let c = Cookie::from_key(key, ObfsParams { obfs_lengths: true, obfs_timing: false });
    assert_eq!(
        c.to_string(),
        "a5b6c7d8e9fa0b1c2d3e4f60718293a4b5c6d7e8f90a1b2c3d4e5f708192a3b4---{\"obfs_lengths\":true,\"obfs_timing\":false}"
    );
    let c = Cookie::from_key(key, ObfsParams { obfs_lengths: false, obfs_timing: true });
    assert!(c.to_string().ends_with("---{\"obfs_lengths\":false,\"obfs_timing\":true}"));
}

#[test]
fn shown_params_read_back() {
    for params in [
        ObfsParams { obfs_lengths: false, obfs_timing: false },
        ObfsParams { obfs_lengths: true, obfs_timing: false },
        ObfsParams { obfs_lengths: false, obfs_timing: true },
        ObfsParams { obfs_lengths: true, obfs_timing: true },
    ] {
        let c = Cookie::from_key([7u8; 32], params);
        assert_eq!(Cookie::new(&c.to_string()).params(), params);
        assert_eq!(ObfsParams::parse(params.to_json().as_bytes()), params);
    }
}

#[test]
fn random_cookies_differ_and_keep_params() {
    let a = Cookie::random();
    let b = Cookie::random();
    assert_ne!(a.key(), b.key());
    assert_eq!(a.params(), ObfsParams::default());
    let p = ObfsParams { obfs_lengths: true, obfs_timing: true };
    let c = Cookie::random_with_params(p);
    assert_eq!(c.params(), p);
    assert_ne!(c.key(), a.key());
}

#[test]
fn delimiter_is_found_where_it_first_stands() {
    assert_eq!(find_delimiter(b"abc---def"), 3);
    assert_eq!(find_delimiter(b"---"), 0);
    assert_eq!(find_delimiter(b"a----b"), 1);
    assert_eq!(find_delimiter(b"a---b---c"), 1);
    assert_eq!(find_delimiter(b"ab--"), 4);
    assert_eq!(find_delimiter(b"--"), 2);
    assert_eq!(find_delimiter(b""), 0);
    assert_eq!(find_delimiter(b"a-b-c--d"), 8);
    assert_eq!(find_delimiter(b"abcdef---"), 6);
}
