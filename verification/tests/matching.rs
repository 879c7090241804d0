use ssh_hosts::matcher::{list_hosts, matching_hosts};
use ssh_hosts::parser::parse_lines;
use ssh_hosts::table::HostTable;

fn config(text: &str) -> Vec<String> {
    text.lines().map(|l| l.to_string()).collect()
}

fn strings(items: &[&str]) -> Vec<String> {
    items.iter().map(|p| p.to_string()).collect()
}

fn table_with(aliases: &[&str]) -> HostTable {
    let mut lines: Vec<String> = aliases.iter().map(|a| format!("Host {}", a)).collect();
    lines.push("Host *".to_string());
    match parse_lines(&lines) {
        Ok(t) => t,
        Err(e) => panic!("unexpected error on {:?}", e.line),
    }
}

fn answer(aliases: &[&str], patterns: &[&str]) -> Vec<String> {
    matching_hosts(&table_with(aliases), &strings(patterns))
}

#[test]
fn matching_ignores_case_and_looks_for_a_part() {
    assert_eq!(answer(&["prod-db", "modem", "test"], &["OD"]), ["modem", "prod-db"]);
}

#[test]
fn matching_ignores_the_case_of_the_alias() {
    assert_eq!(answer(&["Prod-DB", "TEST"], &["prod"]), ["Prod-DB"]);
    assert_eq!(answer(&["ÉCOLE"], &["é"]), ["ÉCOLE"]);
}

#[test]
fn no_patterns_give_no_output() {
    assert_eq!(answer(&["a", "b"], &[]), Vec::<String>::new());
}

#[test]
fn empty_pattern_matches_every_alias() {
    assert_eq!(answer(&["b", "a", "c"], &[""]), ["a", "b", "c"]);
    assert_eq!(answer(&["b", "a", "c"], &["zzz", ""]), ["a", "b", "c"]);
}

#[test]
fn alias_matched_twice_is_listed_once() {
    assert_eq!(answer(&["prod-db"], &["pro", "db"]), ["prod-db"]);
    assert_eq!(
        answer(&["prod-db", "prod-web", "dev-db"], &["pro", "db"]),
        ["dev-db", "prod-db", "prod-web"]
    );
    assert_eq!(answer(&["a"], &["a", "a", "A"]), ["a"]);
}

#[test]
fn output_is_ascending_whatever_the_order_of_input() {
    let expected = ["Zulu", "alpha", "beta", "gamma"];
    assert_eq!(answer(&["gamma", "alpha", "Zulu", "beta"], &["a", "u"]), expected);
    assert_eq!(answer(&["beta", "Zulu", "gamma", "alpha"], &["u", "a"]), expected);
    assert_eq!(answer(&["alpha", "beta", "gamma", "Zulu"], &["u", "a", "a"]), expected);
}

#[test]
fn pattern_without_match_gives_no_output() {
    assert_eq!(answer(&["alpha", "beta"], &["x"]), Vec::<String>::new());
    assert_eq!(answer(&[], &["a"]), Vec::<String>::new());
    assert_eq!(answer(&["ab"], &["abc"]), Vec::<String>::new());
}

#[test]
fn listing_a_config_closed_by_a_further_host_line() {
    let lines = config(
        "Host alpha\n  Hostname 10.0.0.1\nHost beta\n  Hostname 10.0.0.2\n  User root\nHost gamma-test\nHost *\n",
    );
    let out = list_hosts(&lines, &strings(&["a"])).unwrap();
    assert_eq!(out, ["alpha", "beta", "gamma-test"]);
}

#[test]
fn listing_a_config_that_ends_in_a_blank_line_misses_the_last_block() {
    let lines = config(
        "Host alpha\n  Hostname 10.0.0.1\nHost beta\n  Hostname 10.0.0.2\n  User root\nHost gamma-test\n\n",
    );
    let out = list_hosts(&lines, &strings(&["a"])).unwrap();
    assert_eq!(out, ["alpha", "beta"]);
}

#[test]
fn listing_reads_the_entries_of_the_config() {
    let lines = config(
        "Host alpha\n  Hostname 10.0.0.1\nHost beta\n  Hostname 10.0.0.2\n  User root\nHost *\n",
    );
    let t = parse_lines(&lines).ok().unwrap();
    assert_eq!(t.get("alpha").unwrap().host_name, "10.0.0.1");
    let beta = t.get("beta").unwrap();
    assert_eq!(beta.host_name, "10.0.0.2");
    assert_eq!(beta.option("User"), Some("root".to_string()));
}

#[test]
fn listing_fails_where_parsing_fails() {
    let lines = config("Host a\nBroken\nHost b\n");
    assert_eq!(list_hosts(&lines, &strings(&["a"])).unwrap_err().line, "Broken");
}
