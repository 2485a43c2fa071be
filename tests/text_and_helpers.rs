use zinn::helpers::{cat, joinlines, lst, lst_prefix, lst_re, lst_suffix, lst_without, re, subst};
use zinn::error::ZinnError;
use zinn::nix::{default_nixpkgs, to_flake_parameters, NixConfig};
use zinn::setup::parse_key_val;
use zinn::text::{decimal_string, encode_list, parse_list, remove_chars};

fn strings(v: &[&str]) -> Vec<String> {
    v.iter().map(|s| s.to_string()).collect()
}

#[test]
fn parse_list_drops_empty_items() {
    assert_eq!(parse_list("alice bob  carol"), strings(&["alice", "bob", "carol"]));
    assert_eq!(parse_list("  \t\n "), Vec::<String>::new());
    assert_eq!(parse_list(""), Vec::<String>::new());
    assert_eq!(parse_list("a\u{3000}b\u{a0}c"), strings(&["a", "b", "c"]));
}

#[test]
fn encode_list_joins_with_spaces() {
    assert_eq!(encode_list(&strings(&["a", "b", "c"])), "a b c");
    assert_eq!(encode_list(&strings(&[])), "");
    assert_eq!(encode_list(&strings(&["x"])), "x");
}

#[test]
fn decimal_string_formats() {
    assert_eq!(decimal_string(0), "0");
    assert_eq!(decimal_string(7), "7");
    assert_eq!(decimal_string(1203), "1203");
    assert_eq!(decimal_string(usize::MAX), usize::MAX.to_string());
}

#[test]
fn remove_chars_strips_newlines() {
    assert_eq!(remove_chars("a\nb\n", '\n'), "ab");
}

#[test]
fn cat_concatenates() {
    assert_eq!(cat(&strings(&["a", " b", "c"])), "a bc");
    assert_eq!(cat(&strings(&[])), "");
}

#[test]
fn joinlines_replaces_newlines() {
    assert_eq!(joinlines("a\nb\n\nc"), "a b  c");
}

#[test]
fn lst_merges_lists() {
    assert_eq!(lst(&strings(&["a  b", " c", ""])), "a b c");
}

#[test]
fn lst_prefix_and_suffix() {
    assert_eq!(lst_prefix("src/", " a.c b.c "), "src/a.c src/b.c");
    assert_eq!(lst_suffix(".o", "a b"), "a.o b.o");
    assert_eq!(lst_prefix("x", ""), "");
}

#[test]
fn lst_without_removes_exact_items() {
    assert_eq!(lst_without("a b ab c", &strings(&["a", "c"])), "b ab");
    assert_eq!(lst_without("a b", &strings(&[])), "a b");
}

#[test]
fn subst_replaces_all_occurrences() {
    assert_eq!(subst("foo.c bar.c", ".c", ".o"), "foo.o bar.o");
    assert_eq!(subst("aaa", "aa", "b"), "ba");
    assert_eq!(subst("abc", "", "-"), "-a-b-c-");
    assert_eq!(subst("abc", "x", "y"), "abc");
    assert_eq!(subst("abc", "abcd", "y"), "abc");
}

#[test]
fn re_replaces_matches() {
    assert_eq!(re("a1b22c", "[0-9]+", "#").unwrap(), "a#b#c");
    assert!(matches!(re("abc", "(", "x"), Err(ZinnError::RegexError(_))));
}

#[test]
fn lst_re_applies_to_each_item() {
    assert_eq!(lst_re("a.c  b.c", "\\.c$", ".o").unwrap(), "a.o b.o");
    assert!(matches!(lst_re("a", "[", "x"), Err(ZinnError::RegexError(_))));
}

#[test]
fn flake_parameters() {
    let config = NixConfig { nixpkgs: default_nixpkgs(), packages: strings(&["hello", "github:x/y#z"]) };
    assert_eq!(default_nixpkgs(), "nixpkgs");
    assert_eq!(to_flake_parameters(&config, &config.packages), strings(&["nixpkgs#hello", "github:x/y#z"]));
}

#[test]
fn key_val_splits_at_first_equals() {
    assert_eq!(parse_key_val("a=b=c").unwrap(), ("a".to_string(), "b=c".to_string()));
    assert_eq!(parse_key_val("k=").unwrap(), ("k".to_string(), "".to_string()));
    assert_eq!(parse_key_val("novalue").unwrap_err(), "invalid KEY=value: no `=` found in `novalue`");
}

#[test]
fn shell_command_line_and_trim() {
    assert_eq!(zinn::helpers::shell_command(&strings(&["echo", "a"])), " echo a");
    assert_eq!(zinn::helpers::trim_final_newline("out\n"), "out");
    assert_eq!(zinn::helpers::trim_final_newline("out\n\n"), "out\n");
    assert_eq!(zinn::helpers::trim_final_newline("out"), "out");
}

#[test]
fn bindings_are_deduplicated() {
    let v = vec![
        ("a".to_string(), "1".to_string()),
        ("b".to_string(), "2".to_string()),
        ("a".to_string(), "3".to_string()),
    ];
    let mut d = zinn::vars::distinct_bindings(&v);
    d.sort();
    assert_eq!(d, vec![("a".to_string(), "3".to_string()), ("b".to_string(), "2".to_string())]);
}
