use gopher_blog::cli::{parse_args, parse_cta_link};
use std::path::PathBuf;

fn args(v: &[&str]) -> Vec<String> {
    v.iter().map(|s| s.to_string()).collect()
}

#[test]
fn parses_required_and_defaults() {
    let cfg = parse_args(&args(&["--content", "c", "--out", "o"]))
        .unwrap()
        .unwrap();
    assert_eq!(PathBuf::from(&cfg.content), PathBuf::from("c"));
    assert_eq!(PathBuf::from(&cfg.out), PathBuf::from("o"));
    assert_eq!(cfg.host, "gopher.debene.dev");
    assert_eq!(cfg.port, 70);
    assert_eq!(cfg.keep, 3);
    assert_eq!(cfg.cta_link, Some(("gopher.debene.dev".to_string(), 70)));
}

#[test]
fn missing_required_errors() {
    assert!(parse_args(&args(&["--content", "c"])).is_err());
}

#[test]
fn help_returns_none() {
    assert!(parse_args(&args(&["--help"])).unwrap().is_none());
}

#[test]
fn cta_link_variants() {
    assert_eq!(
        parse_cta_link("gopher://example.org:7070").unwrap(),
        Some(("example.org".to_string(), 7070))
    );
    assert_eq!(
        parse_cta_link("gopher://example.org").unwrap(),
        Some(("example.org".to_string(), 70))
    );
    assert_eq!(
        parse_cta_link("gopher://example.org:70/").unwrap(),
        Some(("example.org".to_string(), 70))
    );
    assert_eq!(parse_cta_link("none").unwrap(), None);
    assert_eq!(parse_cta_link("").unwrap(), None);
    assert!(parse_cta_link("http://x").is_err());
}
