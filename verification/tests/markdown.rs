use gopher_blog::markdown::{render, wrap, RULE};

fn body(md: &str) -> String {
    render(md, "my-post").body
}

#[test]
fn wraps_paragraphs_at_70() {
    let md = "alpha beta gamma delta epsilon zeta eta theta iota kappa lambda mu nu xi omicron pi rho sigma tau";
    let r = body(md);
    for line in r.lines() {
        assert!(line.chars().count() <= 70, "too long: {line:?}");
    }
    assert!(r.lines().count() > 1);
}

#[test]
fn heading_gets_underline() {
    let r = body("# Title Here");
    let mut lines = r.lines();
    assert_eq!(lines.next().unwrap(), "Title Here");
    assert_eq!(lines.next().unwrap(), "==========");
    let r3 = body("### Sub");
    assert!(r3.contains("Sub\n---"));
}

#[test]
fn inline_link_footnoted() {
    let r = render("see [the docs](https://example.org/x) now", "my-post");
    assert!(r.body.contains("see the docs[1] now"));
    assert_eq!(r.footnotes.len(), 1);
    assert_eq!(r.footnotes[0].n, 1);
    assert_eq!(r.footnotes[0].url, "https://example.org/x");
    assert_eq!(r.footnotes[0].label, None);
}

#[test]
fn relative_link_resolves_to_canonical() {
    let r = render("[pic](images/a.png)", "gopher-cta-live-trains");
    assert_eq!(
        r.footnotes[0].url,
        "https://debene.dev/posts/gopher-cta-live-trains/images/a.png"
    );
}

#[test]
fn image_marker_and_resolved_url() {
    let r = render("![a hero shot](images/hero.png)", "gopher-cta-live-trains");
    assert!(r.body.contains("[img: a hero shot]"));
    assert_eq!(r.footnotes.len(), 1);
    assert_eq!(
        r.footnotes[0].url,
        "https://debene.dev/posts/gopher-cta-live-trains/images/hero.png"
    );
    assert_eq!(r.footnotes[0].label.as_deref(), Some("img: a hero shot"));
}

#[test]
fn shared_footnote_sequence() {
    let r = render(
        "[one](https://a.test) ![two](b.png) [three](https://c.test)",
        "p",
    );
    let ns: Vec<usize> = r.footnotes.iter().map(|f| f.n).collect();
    assert_eq!(ns, vec![1, 2, 3]);
}

#[test]
fn code_fence_passthrough_verbatim() {
    let md = "```\nlet x = some_very_long_identifier_that_exceeds_seventy_columns_for_sure_yes_indeed = 1;\n```";
    let r = body(md);
    assert!(r.contains(
        "let x = some_very_long_identifier_that_exceeds_seventy_columns_for_sure_yes_indeed = 1;"
    ));
    assert!(r.starts_with(&"-".repeat(RULE)));
}

#[test]
fn code_not_reflowed_preserves_indentation() {
    let md = "```rust\nfn main() {\n    println!(\"hi\");\n}\n```";
    let r = body(md);
    assert!(r.contains("\n    println!(\"hi\");\n"));
}

#[test]
fn bullet_and_ordered_lists() {
    let r = body("- first\n- second");
    assert!(r.contains("• first"));
    assert!(r.contains("• second"));
    let o = body("1. one\n2. two");
    assert!(o.contains("1. one"));
    assert!(o.contains("2. two"));
}

#[test]
fn list_item_hanging_indent() {
    let long = "- ".to_string() + "word ".repeat(40).trim();
    let r = body(&long);
    let lines: Vec<&str> = r.lines().collect();
    assert!(lines[0].starts_with("• "));
    assert!(lines[1].starts_with("  "));
    for l in &lines {
        assert!(l.chars().count() <= 70);
    }
}

#[test]
fn blockquote_prefixed_and_wrapped() {
    let long = "> ".to_string() + &"quoted ".repeat(30);
    let r = body(&long);
    for line in r.lines() {
        assert!(line.starts_with("> "));
        assert!(line.chars().count() <= 70);
    }
}

#[test]
fn small_table_renders_aligned() {
    let md = "| A | B |\n| - | - |\n| 1 | 2 |";
    let r = body(md);
    assert!(r.contains("| A | B |"));
    assert!(r.contains("| 1 | 2 |"));
    assert!(!r.contains("see web"));
}

#[test]
fn wide_table_falls_back_to_web() {
    let wide = "verylongheadercell".repeat(3);
    let md = format!("| {wide} | {wide} | {wide} |\n| - | - | - |\n| a | b | c |");
    let r = render(&md, "my-post");
    assert!(r.body.contains("[table — see web]"));
    assert_eq!(r.footnotes.len(), 1);
    assert_eq!(r.footnotes[0].url, "https://debene.dev/posts/my-post/");
}
