use zmx_dashboard::ensemble::{max_len, parse_mode, remove_first, split, znode_of, Mode};

#[test]
fn split_separates_host_and_port() {
    let (host, port) = split(&"localhost:2181".to_string());
    assert_eq!(host, "localhost");
    assert_eq!(port, "2181");
}

#[test]
fn max_len_finds_longest_host() {
    let a = "a".to_string();
    let bb = "bb".to_string();
    let ccc = "ccc".to_string();
    let hosts = vec![&a, &ccc, &bb];
    assert_eq!(max_len(&hosts), 3);
}

#[test]
fn remove_first_drops_one_char() {
    assert_eq!(remove_first("abc"), Some("bc"));
    assert_eq!(remove_first(""), None);
}

#[test]
fn parse_mode_recognises_the_known_modes() {
    assert_eq!(parse_mode("follower"), Mode::Follower);
    assert_eq!(parse_mode("leader"), Mode::Leader);
    assert_eq!(parse_mode("standalone"), Mode::Standalone);
    assert_eq!(parse_mode("observer"), Mode::Unknown);
}

#[test]
fn znode_needs_both_responses() {
    let z = znode_of(Some("leader".to_string()), Some("3".to_string())).unwrap();
    assert_eq!(z.id, "3");
    assert_eq!(z.mode, Mode::Leader);
    assert!(znode_of(None, Some("3".to_string())).is_none());
    assert!(znode_of(Some("leader".to_string()), None).is_none());
}
