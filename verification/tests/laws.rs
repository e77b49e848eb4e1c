use gopher_blog::cli::{parse_args, parse_cta_link};
use gopher_blog::content::{
    about_body, date_to_epoch, days_from_civil, newest_first, parse_date, parse_offset, parse_post,
    split_frontmatter,
};
use gopher_blog::markdown::{render, wrap};
use gopher_blog::publish::{render_menu_index, stale_snapshots, KEEP_SNAPSHOTS};
use gopher_blog::render::{info, link, link_remote, with_host, Entry, ItemKind};

fn args(v: &[&str]) -> Vec<String> {
    v.iter().map(|s| s.to_string()).collect()
}

#[test]
fn wrap_lines_fit_or_hold_one_word() {
    let text = "a bb ccc https://example.org/a/very/long/path/that/cannot/fit/anywhere dd e";
    let lines = wrap(text, 12);
    assert_eq!(
        lines,
        vec![
            "a bb ccc",
            "https://example.org/a/very/long/path/that/cannot/fit/anywhere",
            "dd e"
        ]
    );
    for l in &lines {
        assert!(l.chars().count() <= 12 || !l.contains(' '));
    }
}

#[test]
fn wrap_keeps_every_word_in_order() {
    let text = "  one   two\tthree\nfour  five six seven eight nine ten ";
    let lines = wrap(text, 9);
    assert_eq!(lines.join(" "), "one two three four five six seven eight nine ten");
    assert!(wrap("   \n\t ", 10).is_empty());
}

#[test]
fn footnotes_share_one_sequence() {
    let wide = "x".repeat(80);
    let md = format!(
        "[a](https://a.test) ![pic](p.png)\n\n| {wide} |\n| - |\n| y |\n\n[b](/abs/path)"
    );
    let r = render(&md, "slug");
    let ns: Vec<usize> = r.footnotes.iter().map(|f| f.n).collect();
    assert_eq!(ns, vec![1, 2, 3, 4]);
    assert_eq!(r.footnotes[1].url, "https://debene.dev/posts/slug/p.png");
    assert_eq!(r.footnotes[2].label.as_deref(), Some("table"));
    assert_eq!(r.footnotes[3].url, "https://debene.dev/abs/path");
    assert!(r.body.contains("a[1] [img: pic]"));
    assert!(r.body.contains("b[4]"));
}

#[test]
fn absolute_urls_pass_through_trimmed() {
    for u in [
        "http://h/x",
        "https://h/x",
        "gopher://h/1",
        "mailto:me@h",
        "//cdn.h/x",
        "ftp://example.org/f.txt",
        "svn+ssh://h/r",
    ] {
        let r = render(&format!("[t](<  {u}  >)"), "s");
        assert_eq!(r.footnotes[0].url, u);
    }
}

#[test]
fn scheme_needs_a_leading_letter() {
    let r = render("[t](1ab:x) [u](/top) [v](sub/x)", "p");
    assert_eq!(r.footnotes[0].url, "https://debene.dev/posts/p/1ab:x");
    assert_eq!(r.footnotes[1].url, "https://debene.dev/top");
    assert_eq!(r.footnotes[2].url, "https://debene.dev/posts/p/sub/x");
}

#[test]
fn code_block_lines_rejoin_verbatim() {
    let code = "  a  b\n\n\tc\nlast line";
    let r = render(&format!("```\n{code}\n```"), "s");
    let rule = "-".repeat(64);
    assert_eq!(r.body, format!("{rule}\n{code}\n{rule}"));
}

#[test]
fn table_lines_share_one_width() {
    let r = render("| Name | N |\n| - | - |\n| x | 12345 |\n| yy |", "s");
    let lines: Vec<&str> = r.body.lines().collect();
    assert_eq!(
        lines,
        vec!["| Name | N     |", "| ---- | ----- |", "| x    | 12345 |", "| yy   |       |"]
    );
}

#[test]
fn heading_and_rule_and_quote() {
    let r = render("## Two\n\ntext\n\n---\n\n> q1\n>\n> > q2", "s");
    assert_eq!(r.body, "Two\n===\n\ntext\n\n* * *\n\n> q1\n> > q2");
}

#[test]
fn nested_list_indents_and_numbers() {
    let r = render("3. three\n4. four\n   - inner\n", "s");
    assert_eq!(r.body, "3. three\n4. four\n  • inner");
}

#[test]
fn escaped_field_reads_back() {
    let gph = render_menu_index(&[
        link(ItemKind::Url, "a|b".to_string(), "URL:http://x|y".to_string()),
        info("[not a link]".to_string()),
        info(String::new()),
        link_remote(ItemKind::Bin, "bin".to_string(), "/f".to_string(), "h|st".to_string(), 7),
    ]);
    assert_eq!(
        gph,
        "[h|a\\|b|URL:http://x\\|y|server|port]\n [not a link]\n\n[9|bin|/f|h\\|st|7]\n"
    );
}

#[test]
fn with_host_stamps_local_links_only() {
    let entries = vec![
        info("i".to_string()),
        link(ItemKind::Text, "a".to_string(), "/a".to_string()),
        link_remote(ItemKind::Menu, "r".to_string(), "/".to_string(), "other".to_string(), 71),
    ];
    let once = with_host(entries, "here", 70);
    assert_eq!(once[0], Entry::Info("i".to_string()));
    assert_eq!(
        once[1],
        Entry::Link {
            kind: ItemKind::Text,
            display: "a".to_string(),
            selector: "/a".to_string(),
            host: Some("here".to_string()),
            port: Some(70)
        }
    );
    let twice = with_host(once.clone(), "here", 70);
    assert_eq!(once, twice);
    assert_eq!(render_menu_index(&twice[2..]), "[1|r|/|other|71]\n");
}

#[test]
fn with_host_stamps_a_link_with_a_port_but_no_host() {
    let e = Entry::Link {
        kind: ItemKind::Text,
        display: "d".to_string(),
        selector: "/s".to_string(),
        host: None,
        port: Some(8070),
    };
    let r = with_host(vec![e], "h", 70);
    assert_eq!(
        r[0],
        Entry::Link {
            kind: ItemKind::Text,
            display: "d".to_string(),
            selector: "/s".to_string(),
            host: Some("h".to_string()),
            port: Some(70)
        }
    );
}

fn post(slug: &str, date: &str, draft: bool) -> gopher_blog::content::Post {
    let raw = format!("---\ndate: {date}\ndraft: {draft}\n---\n");
    parse_post(slug, &raw).unwrap()
}

#[test]
fn newest_first_drops_drafts_and_breaks_ties_by_slug() {
    let posts = vec![
        post("b", "2026-01-01", false),
        post("old", "2020-05-05", false),
        post("draft", "2030-01-01", true),
        post("a", "2026-01-01", false),
        post("new", "2026-06-23T11:00:00-05:00", false),
    ];
    let order: Vec<String> = newest_first(posts).into_iter().map(|p| p.slug).collect();
    assert_eq!(order, vec!["new", "a", "b", "old"]);
}

#[test]
fn gc_keeps_newest_and_current() {
    let names: Vec<String> = ["out-005", "out-001", "current", "out-000", "out-003", "x", "out-002", "out-004"]
        .iter()
        .map(|s| s.to_string())
        .collect();
    let stale = stale_snapshots(names.clone(), "out-000", KEEP_SNAPSHOTS);
    assert_eq!(stale, vec!["out-001", "out-002"]);
    assert_eq!(stale_snapshots(names.clone(), "out-005", 0).len(), 5);
    assert!(stale_snapshots(names, "out-000", 10).is_empty());
}

#[test]
fn cta_link_errors_and_roundtrip() {
    assert_eq!(parse_cta_link("NoNe").unwrap(), None);
    assert_eq!(
        parse_cta_link("http://x").unwrap_err(),
        "--cta-link must start with gopher:// (got http://x)"
    );
    assert_eq!(
        parse_cta_link("gopher://h:99999").unwrap_err(),
        "invalid port in --cta-link: 99999"
    );
    assert_eq!(parse_cta_link("gopher://:70").unwrap_err(), "--cta-link has no host: gopher://:70");
    assert_eq!(parse_cta_link("gopher:///x").unwrap_err(), "--cta-link has no host: gopher:///x");
    assert_eq!(
        parse_cta_link("gopher://[::1]:+8").unwrap(),
        Some(("[::1]".to_string(), 8))
    );
    for (h, p) in [("example.org", 70u16), ("10.0.0.1", 65535), ("x", 0)] {
        assert_eq!(
            parse_cta_link(&format!("gopher://{h}:{p}")).unwrap(),
            Some((h.to_string(), p))
        );
    }
}

#[test]
fn parse_args_errors() {
    assert_eq!(parse_args(&args(&["--bogus"])).err().unwrap(), "unknown argument: --bogus");
    assert_eq!(parse_args(&args(&["--out"])).err().unwrap(), "flag --out needs a value");
    assert_eq!(
        parse_args(&args(&["--content", "c", "--out", "o", "--port", "70000"])).err().unwrap(),
        "invalid --port: 70000"
    );
    assert_eq!(
        parse_args(&args(&["--content", "c", "--out", "o", "--keep", "-1"])).err().unwrap(),
        "invalid --keep: -1"
    );
    assert_eq!(parse_args(&args(&["--out", "o"])).err().unwrap(), "--content is required");
    assert_eq!(parse_args(&args(&["--content", "c"])).err().unwrap(), "--out is required");
    assert!(parse_args(&args(&["--content", "c", "-h"])).unwrap().is_none());
    let cfg = parse_args(&args(&[
        "--content", "c", "--out", "o", "--host", "h", "--port", "7071", "--keep", "5",
        "--cta-link", "none",
    ]))
    .unwrap()
    .unwrap();
    assert_eq!((cfg.host.as_str(), cfg.port, cfg.keep, cfg.cta_link), ("h", 7071, 5, None));
}

#[test]
fn parse_post_errors_name_the_cause() {
    assert_eq!(parse_post("x", "no fence").unwrap_err(), "missing '---' frontmatter fence");
    assert_eq!(parse_post("x", "---\ntitle: t\n").unwrap_err(), "missing '---' frontmatter fence");
    let e = parse_post("x", "---\ntitle: [unclosed\n---\nbody").unwrap_err();
    assert!(e.starts_with("invalid YAML: "), "{e}");
}

#[test]
fn scalar_fields_coerce_to_text() {
    let p = parse_post(
        "d",
        "---\ntitle: 42\nslug: -7\ndescription: 1.50\ntags: [a, 3, b, true]\ndraft: yes\n---\n",
    )
    .unwrap();
    assert_eq!(p.title, "42");
    assert_eq!(p.slug, "-7");
    assert_eq!(p.description, "1.50");
    assert_eq!(p.tags, vec!["a", "b"]);
    assert!(!p.draft);
    assert_eq!(p.date, "");
    assert_eq!(p.sort_key, 0);
}

#[test]
fn frontmatter_split_keeps_body_bytes() {
    let raw = "\u{feff}---\r\ntitle: t\r\n---\r\n\r\n  body ---\n---\n";
    let (fm, body) = split_frontmatter(raw).unwrap();
    assert_eq!(fm, "title: t\r\n");
    assert_eq!(body, "\r\n  body ---\n---\n");
    assert_eq!(format!("\u{feff}---\r\n{fm}---\r\n{body}"), raw);
    assert_eq!(split_frontmatter("---\n---\n"), Some((String::new(), String::new())));
    assert_eq!(split_frontmatter("--- \nx\n---\n"), None);
}

#[test]
fn dates_count_from_the_epoch() {
    assert_eq!(days_from_civil(1970, 1, 1), 0);
    assert_eq!(days_from_civil(2000, 3, 1), 11017);
    assert_eq!(days_from_civil(1969, 12, 31), -1);
    assert_eq!(date_to_epoch("1970-01-02"), Some(86400));
    assert_eq!(date_to_epoch("2024-02-29T12:00:00Z"), Some(1709208000));
    assert_eq!(date_to_epoch("2024-02-29 12:00:00 +01:30"), Some(1709208000 - 5400));
    assert_eq!(date_to_epoch("2024-02-29T12:00:00+bad"), Some(1709208000));
    assert_eq!(date_to_epoch("2024-02"), None);
    assert_eq!(date_to_epoch("24-02-29"), None);
    assert_eq!(date_to_epoch("2024-02-29T1x:00:00Z"), None);
}

#[test]
fn offsets_and_display_dates() {
    assert_eq!(parse_offset(" Z "), Some(0));
    assert_eq!(parse_offset(""), Some(0));
    assert_eq!(parse_offset("-05:30"), Some(-19800));
    assert_eq!(parse_offset("+1:0"), Some(3600));
    assert_eq!(parse_offset("05:00"), None);
    assert_eq!(parse_offset("+0500"), None);
    assert_eq!(parse_date("2026-06-23T11:00:00-05:00"), ("2026-06-23".to_string(), 1782230400));
    assert_eq!(parse_date("June 2026"), ("June 2026".to_string(), 0));
    assert_eq!(parse_date("éé-06-23xx"), ("éé-06-23xx".to_string(), 0));
    assert_eq!(parse_date("é-06-23xxx"), ("é-06-23xxx".to_string(), 0));
}

#[test]
fn about_body_drops_frontmatter() {
    assert_eq!(about_body("---\ntitle: About\n---\nHi there\n"), "Hi there\n");
    assert_eq!(about_body("---\nunclosed\n"), "---\nunclosed\n");
    assert_eq!(about_body("plain\n---\nx"), "plain\n---\nx");
}

#[test]
fn body_lines_keep_to_seventy_columns() {
    let url = "https://example.org/".to_string() + &"segment/".repeat(10);
    let md = format!(
        "# {}\n\n- {} {}\n\n> {}\n\n```\n{}\n```\n",
        "heading ".repeat(12).trim(),
        "item ".repeat(20).trim(),
        url,
        "quoted ".repeat(15).trim(),
        "x".repeat(90)
    );
    let r = render(&md, "s");
    let rule = "-".repeat(64);
    let mut in_code = false;
    let mut long = 0;
    for line in r.body.lines() {
        if line == rule {
            in_code = !in_code;
            continue;
        }
        if in_code {
            continue;
        }
        let n = line.chars().count();
        if n > 70 {
            long += 1;
            let rest = line.trim_start_matches(|c: char| " >•.0123456789".contains(c));
            assert!(!rest.contains(char::is_whitespace), "{line:?}");
        }
    }
    assert_eq!(long, 1);
    assert!(r.body.contains(&format!("  {}", url)));
    assert!(r.body.contains(&"x".repeat(90)));
}

#[test]
fn unparsed_date_shows_as_written() {
    assert_eq!(parse_date("2026-xx-yy-draft"), ("2026-xx-yy-draft".to_string(), 0));
    assert_eq!(parse_date("soon"), ("soon".to_string(), 0));
}

#[test]
fn fraction_of_a_second_is_skipped_before_the_offset() {
    assert_eq!(
        parse_date("2026-06-23T11:00:00.5-05:00"),
        ("2026-06-23".to_string(), 1782230400)
    );
    assert_eq!(date_to_epoch("2026-06-23T16:00:00.123456Z"), Some(1782230400));
    assert_eq!(date_to_epoch("2026-06-23T16:00:00Z"), Some(1782230400));
}

#[test]
fn day_after_crosses_month_and_year_ends() {
    assert_eq!(days_from_civil(2000, 2, 29), 11016);
    assert_eq!(days_from_civil(2000, 3, 1), 11017);
    assert_eq!(days_from_civil(1969, 12, 31), -1);
    assert_eq!(days_from_civil(1970, 1, 1), 0);
    assert_eq!(days_from_civil(2025, 2, 28) + 1, days_from_civil(2025, 3, 1));
    assert_eq!(days_from_civil(1900, 2, 28) + 1, days_from_civil(1900, 3, 1));
    assert_eq!(
        date_to_epoch("2024-02-29T23:59:59+01:30"),
        Some(days_from_civil(2024, 2, 29) * 86400 + 23 * 3600 + 59 * 60 + 59 - 5400)
    );
}
