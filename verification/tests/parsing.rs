use ssh_hosts::entry::{build_entry, Entry};
use ssh_hosts::parser::parse_lines;
use ssh_hosts::table::HostTable;

fn text(config: &str) -> Vec<String> {
    config.lines().map(|l| l.to_string()).collect()
}

fn table(config: &str) -> HostTable {
    match parse_lines(&text(config)) {
        Ok(t) => t,
        Err(e) => panic!("unexpected error on {:?}", e.line),
    }
}

fn entry(host: &str, host_name: &str) -> Entry {
    let block = vec![format!("Host {}", host), format!("Hostname {}", host_name)];
    match build_entry(&block) {
        Ok(e) => e,
        Err(e) => panic!("unexpected error on {:?}", e.line),
    }
}

fn hosts(t: &HostTable) -> Vec<String> {
    (0..t.len()).map(|i| t.entry(i).host.clone()).collect()
}

#[test]
fn table_keeps_entries_in_ascending_order() {
    let mut t = HostTable::new();
    t.insert(entry("gamma", "g"));
    t.insert(entry("alpha", "a"));
    t.insert(entry("beta", "b"));
    t.insert(entry("Zeta", "z"));
    assert_eq!(hosts(&t), ["Zeta", "alpha", "beta", "gamma"]);
}

#[test]
fn table_insert_replaces_an_entry_with_the_same_alias() {
    let mut t = HostTable::new();
    t.insert(entry("a", "first"));
    t.insert(entry("b", "other"));
    t.insert(entry("a", "second"));
    assert_eq!(t.len(), 2);
    assert_eq!(t.get("a").unwrap().host_name, "second");
    assert_eq!(t.get("b").unwrap().host_name, "other");
}

#[test]
fn table_get_misses_an_unknown_alias() {
    let mut t = HostTable::new();
    assert!(t.get("a").is_none());
    t.insert(entry("a", "x"));
    assert!(t.get("A").is_none());
    assert!(t.get("").is_none());
    assert!(t.get("a").is_some());
}

#[test]
fn new_table_is_empty() {
    assert_eq!(HostTable::new().len(), 0);
}

#[test]
fn every_completed_block_is_in_the_table() {
    let t = table("Host one\n  Port 1\nHost two\n  Port 2\nHost three\n  Port 3\nHost last\n");
    assert_eq!(hosts(&t), ["one", "three", "two"]);
    assert_eq!(t.get("one").unwrap().option("Port"), Some("1".to_string()));
    assert_eq!(t.get("two").unwrap().option("Port"), Some("2".to_string()));
    assert_eq!(t.get("three").unwrap().option("Port"), Some("3".to_string()));
}

#[test]
fn later_block_with_the_same_alias_wins() {
    let t = table("Host a\nUser first\nPort 1\nHost b\nHost a\nUser second\nHost *\n");
    assert_eq!(hosts(&t), ["a", "b"]);
    let a = t.get("a").unwrap();
    assert_eq!(a.option("User"), Some("second".to_string()));
    assert_eq!(a.option("Port"), None);
}

#[test]
fn last_block_is_left_out() {
    let t = table("Host a\nHost b\nHostname b.example\n");
    assert_eq!(hosts(&t), ["a"]);
    assert!(t.get("b").is_none());
}

#[test]
fn trailing_blank_line_does_not_close_the_last_block() {
    let t = table("Host a\nHost b\n\n   \n");
    assert_eq!(hosts(&t), ["a"]);
}

#[test]
fn single_block_gives_an_empty_table() {
    assert_eq!(table("Host only\nUser u\n").len(), 0);
    assert_eq!(table("").len(), 0);
}

#[test]
fn comments_and_blank_lines_are_passed_over() {
    let t = table("# servers\n\nHost a\n   # note\n\n  User   u  \n\t\nHost b\n");
    let a = t.get("a").unwrap();
    assert_eq!(a.config.len(), 1);
    assert_eq!(a.option("User"), Some("  u".to_string()));
}

#[test]
fn lines_are_trimmed_before_they_are_read() {
    let t = table("   Host a   \n\tHostname h \nHost b\n");
    let a = t.get("a").unwrap();
    assert_eq!(a.host, "a");
    assert_eq!(a.host_name, "h");
}

#[test]
fn only_the_exact_prefix_opens_a_block() {
    let t = table("Host a\nhost b\nHost=c\nHost\td\nHost e\n");
    assert_eq!(hosts(&t), ["d"]);
    let d = t.get("d").unwrap();
    assert_eq!(d.option("host"), Some("b".to_string()));
}

#[test]
fn directives_before_the_first_host_line_form_a_block_without_alias() {
    let t = table("User me\nHost a\nHost b\n");
    assert_eq!(hosts(&t), ["", "a"]);
    let first = t.get("").unwrap();
    assert_eq!(first.host_name, "");
    assert_eq!(first.option("User"), Some("me".to_string()));
}

#[test]
fn parse_fails_on_a_line_without_delimiter_in_a_closed_block() {
    match parse_lines(&text("Host a\nCompression\nHost b\nAlsoBad\nHost c\n")) {
        Ok(_) => panic!("expected an error"),
        Err(e) => assert_eq!(e.line, "Compression"),
    }
}

#[test]
fn parse_does_not_read_the_open_block() {
    let t = table("Host a\nHost b\nCompression\n");
    assert_eq!(hosts(&t), ["a"]);
}
