use ssh_hosts::order::{compare, Order};
use ssh_hosts::text::{chars_of, contains_chars, starts_with_chars, trim};

fn cv(s: &str) -> Vec<char> {
    s.chars().collect()
}

#[test]
fn chars_of_gives_each_character_in_order() {
    assert_eq!(chars_of("a=é"), vec!['a', '=', 'é']);
    assert_eq!(chars_of(""), Vec::<char>::new());
}

#[test]
fn trim_drops_white_space_at_both_ends_only() {
    assert_eq!(trim("  User bob \t"), "User bob");
    assert_eq!(trim("\tHost  a"), "Host  a");
    assert_eq!(trim("plain"), "plain");
}

#[test]
fn trim_of_blank_text_is_empty() {
    assert_eq!(trim(""), "");
    assert_eq!(trim(" \t \r\n"), "");
}

#[test]
fn trim_knows_wide_white_space() {
    assert_eq!(trim("\u{3000}x\u{a0}"), "x");
}

#[test]
fn trim_agrees_with_std() {
    for s in ["", " ", "a", " a", "a ", "  a  b  ", "\t#c\n", "é \u{2003}"] {
        assert_eq!(trim(s), s.trim());
    }
}

#[test]
fn contains_finds_a_part_anywhere() {
    assert!(contains_chars(&cv("prod-db"), &cv("od")));
    assert!(contains_chars(&cv("prod-db"), &cv("prod-db")));
    assert!(contains_chars(&cv("prod-db"), &cv("db")));
    assert!(contains_chars(&cv("aab"), &cv("ab")));
}

#[test]
fn contains_rejects_what_is_not_a_part() {
    assert!(!contains_chars(&cv("test"), &cv("od")));
    assert!(!contains_chars(&cv("db"), &cv("prod-db")));
    assert!(!contains_chars(&cv("abc"), &cv("ac")));
    assert!(!contains_chars(&cv(""), &cv("a")));
}

#[test]
fn contains_always_finds_the_empty_string() {
    assert!(contains_chars(&cv("abc"), &cv("")));
    assert!(contains_chars(&cv(""), &cv("")));
}

#[test]
fn starts_with_compares_the_front() {
    assert!(starts_with_chars(&cv("Host a"), &cv("Host ")));
    assert!(!starts_with_chars(&cv("Hostname a"), &cv("Host ")));
    assert!(!starts_with_chars(&cv("Hos"), &cv("Host ")));
    assert!(!starts_with_chars(&cv("host a"), &cv("Host ")));
    assert!(starts_with_chars(&cv("x"), &cv("")));
}

#[test]
fn compare_orders_by_first_difference() {
    assert_eq!(compare(&cv("alpha"), &cv("beta")), Order::Before);
    assert_eq!(compare(&cv("beta"), &cv("alpha")), Order::After);
    assert_eq!(compare(&cv("abc"), &cv("abd")), Order::Before);
    assert_eq!(compare(&cv("Z"), &cv("a")), Order::Before);
}

#[test]
fn compare_puts_a_prefix_first() {
    assert_eq!(compare(&cv("prod"), &cv("prod-db")), Order::Before);
    assert_eq!(compare(&cv("prod-db"), &cv("prod")), Order::After);
    assert_eq!(compare(&cv(""), &cv("a")), Order::Before);
}

#[test]
fn compare_finds_equal_strings_the_same() {
    assert_eq!(compare(&cv("same"), &cv("same")), Order::Same);
    assert_eq!(compare(&cv(""), &cv("")), Order::Same);
}

#[test]
fn compare_agrees_with_the_order_of_strings() {
    let words = ["", "a", "A", "ab", "b", "é", "z", "zz", "\u{10000}", "\u{ffff}"];
    for x in words {
        for y in words {
            let expected = if x < y {
                Order::Before
            } else if x == y {
                Order::Same
            } else {
                Order::After
            };
            assert_eq!(compare(&cv(x), &cv(y)), expected);
        }
    }
}
