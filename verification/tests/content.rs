use gopher_blog::content::{date_to_epoch, parse_post};

const VALID: &str = "\
---
title: \"Live Trains on a Quiet Internet\"
date: 2026-06-23T11:00:00-05:00
draft: false
description: \"trains over gopher\"
tags: [\"gopher\", \"rust\"]
categories: [\"Networking\"]
series: [\"Quiet Internet\"]
---
# Hello

Body text here.
";

#[test]
fn parses_valid_post() {
    let p = parse_post("gopher-cta-live-trains", VALID).unwrap();
    assert_eq!(p.slug, "gopher-cta-live-trains");
    assert_eq!(p.title, "Live Trains on a Quiet Internet");
    assert_eq!(p.date, "2026-06-23");
    assert!(!p.draft);
    assert_eq!(p.description, "trains over gopher");
    assert_eq!(p.tags, vec!["gopher", "rust"]);
    assert_eq!(p.categories, vec!["Networking"]);
    assert_eq!(p.series, vec!["Quiet Internet"]);
    assert_eq!(p.body, "# Hello\n\nBody text here.\n");
}

#[test]
fn detects_draft() {
    let raw = "---\ntitle: Chimarrão\ndate: 2026-02-28\ndraft: true\n---\nbody\n";
    let p = parse_post("chimarrao", raw).unwrap();
    assert!(p.draft);
    assert_eq!(p.date, "2026-02-28");
}

#[test]
fn missing_fields_default() {
    let raw = "---\ndate: 2026-05-14\n---\njust a body\n";
    let p = parse_post("apple-silicon-vs-power8", raw).unwrap();
    assert_eq!(p.title, "apple-silicon-vs-power8");
    assert_eq!(p.date, "2026-05-14");
    assert!(!p.draft);
    assert!(p.tags.is_empty());
    assert!(p.categories.is_empty());
    assert!(p.series.is_empty());
    assert_eq!(p.description, "");
    assert_eq!(p.body, "just a body\n");
}

#[test]
fn explicit_slug_overrides_dir() {
    let raw = "---\ntitle: T\ndate: 2026-01-01\nslug: custom-slug\n---\nx\n";
    let p = parse_post("dir-name", raw).unwrap();
    assert_eq!(p.slug, "custom-slug");
}

#[test]
fn no_frontmatter_errors() {
    assert!(parse_post("x", "# just markdown\n").is_err());
}

#[test]
fn bare_date_and_offset_both_parse_chronologically() {
    let early = parse_post("a", "---\ndate: 2025-01-15T00:00:00-06:00\n---\n").unwrap();
    let late = parse_post("b", "---\ndate: 2026-06-23\n---\n").unwrap();
    assert!(late.sort_key > early.sort_key);
}

#[test]
fn offset_shifts_utc() {
    let off = date_to_epoch("2026-06-23T11:00:00-05:00").unwrap();
    let utc = date_to_epoch("2026-06-23T16:00:00Z").unwrap();
    assert_eq!(off, utc);
}
