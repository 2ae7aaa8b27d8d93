use rust_nrm::npmrc::{find_registry_url, line_registry_value, set_registry_line};
use rust_nrm::text::str_eq;

#[test]
fn plain_assignment_line_parses() {
    assert_eq!(line_registry_value("registry=https://x.example/"), Some("https://x.example/"));
}

#[test]
fn whitespace_around_the_parts_is_ignored() {
    assert_eq!(
        line_registry_value("   registry  =   https://x.example/   "),
        Some("https://x.example/"),
    );
    assert_eq!(line_registry_value("\tregistry\t=\thttps://x.example/\r"), Some("https://x.example/"));
}

#[test]
fn empty_value_yields_an_empty_string() {
    assert_eq!(line_registry_value("registry="), Some(""));
    assert_eq!(line_registry_value("registry =   "), Some(""));
}

#[test]
fn lines_that_are_no_assignment_do_not_parse() {
    assert_eq!(line_registry_value("strict-ssl=false"), None);
    assert_eq!(line_registry_value("registries=https://x.example/"), None);
    assert_eq!(line_registry_value("registry https://x.example/"), None);
    assert_eq!(line_registry_value("# registry=https://x.example/"), None);
    assert_eq!(line_registry_value(""), None);
}

#[test]
fn value_may_hold_inner_spaces_and_equals_signs() {
    assert_eq!(line_registry_value("registry=a b=c "), Some("a b=c"));
}

#[test]
fn first_nonempty_assignment_wins() {
    let content = "# npm configuration\nstrict-ssl=false\nregistry=\nregistry=https://first.example/\nregistry=https://second.example/\n";
    assert_eq!(find_registry_url(content), Some(String::from("https://first.example/")));
}

#[test]
fn content_without_assignment_has_no_url() {
    assert_eq!(find_registry_url(""), None);
    assert_eq!(find_registry_url("strict-ssl=false\nfund=false"), None);
    assert_eq!(find_registry_url("registry=\n"), None);
}

#[test]
fn rewriting_replaces_every_assignment_line() {
    let content = "strict-ssl=false\nregistry=https://old.example/\nfund=false\n  registry = https://older.example/  ";
    let rewritten = set_registry_line(content, "https://new.example/");
    assert_eq!(
        rewritten,
        "strict-ssl=false\nregistry=https://new.example/\nfund=false\nregistry=https://new.example/",
    );
}

#[test]
fn rewriting_keeps_unrelated_content_unchanged() {
    let content = "# comment\nstrict-ssl=false\n\nfund=false\n";
    assert_eq!(set_registry_line(content, "https://new.example/"), content);
    assert_eq!(set_registry_line("", "https://new.example/"), "");
}

#[test]
fn rewriting_preserves_line_count_and_separators() {
    let content = "a=1\nregistry=x\nb=2\n";
    let rewritten = set_registry_line(content, "https://r.example/");
    assert_eq!(rewritten, "a=1\nregistry=https://r.example/\nb=2\n");
    assert_eq!(rewritten.matches('\n').count(), content.matches('\n').count());
}

#[test]
fn str_eq_compares_by_characters() {
    assert!(str_eq("", ""));
    assert!(str_eq("registry", "registry"));
    assert!(!str_eq("registry", "registrx"));
    assert!(!str_eq("short", "shorter"));
    assert!(str_eq("naïve ✓", "naïve ✓"));
}
