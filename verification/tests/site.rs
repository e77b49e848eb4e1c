use gopher_blog::cli::parse_args;
use gopher_blog::content::parse_post;
use gopher_blog::site::build_tree;

fn args(v: &[&str]) -> Vec<String> {
    v.iter().map(|s| s.to_string()).collect()
}

fn text(files: &[(String, Vec<u8>)], path: &str) -> String {
    let f = files.iter().find(|f| f.0 == path).expect(path);
    String::from_utf8(f.1.clone()).unwrap()
}

#[test]
fn tree_has_every_page_and_menu() {
    let newer = parse_post(
        "b-post",
        "---\ntitle: Second\ndate: 2026-02-01\ntags: [Rust, Gopher]\nseries: [Quiet Internet]\n---\nsee [x](https://x.test)\n",
    )
    .unwrap();
    let older = parse_post(
        "a-post",
        "---\ntitle: First\ndate: 2026-01-01\ndescription: the start\ntags: [Rust]\nseries: [Quiet Internet]\n---\nhello\n",
    )
    .unwrap();
    let cfg = parse_args(&args(&[
        "--content", "c", "--out", "o", "--host", "h", "--port", "7070", "--cta-link",
        "gopher://cta.example:70",
    ]))
    .unwrap()
    .unwrap();
    let files = build_tree(&[newer, older], &cfg, None);
    let paths: Vec<&str> = files.iter().map(|f| f.0.as_str()).collect();
    assert_eq!(
        paths,
        vec![
            "index.gph",
            "posts/index.gph",
            "tags/index.gph",
            "series/index.gph",
            "about.txt",
            "posts/b-post.txt",
            "posts/a-post.txt",
            "tags/rust.gph",
            "tags/gopher.gph",
            "series/quiet-internet.gph",
        ]
    );
    assert_eq!(
        text(&files, "index.gph"),
        "  gopher-blog : a phlog\n  the debene.dev blog, reflowed for gopher\n\n\
         [1|Posts|/posts|h|7070]\n[1|Tags|/tags|h|7070]\n[1|Series|/series|h|7070]\n\
         [0|About|/about.txt|h|7070]\n\n[1|Live CTA trains|/|cta.example|70]\n"
    );
    assert_eq!(
        text(&files, "posts/index.gph"),
        "Posts\n\n[0|2026-02-01  Second|/posts/b-post.txt|h|7070]\n\
         [0|2026-01-01  First|/posts/a-post.txt|h|7070]\n"
    );
    assert_eq!(
        text(&files, "tags/index.gph"),
        "Tags\n\n[1|Rust (2)|/tags/rust.gph|h|7070]\n[1|Gopher (1)|/tags/gopher.gph|h|7070]\n"
    );
    assert_eq!(
        text(&files, "series/index.gph"),
        "Series\n\n[1|Quiet Internet|/series/quiet-internet.gph|h|7070]\n"
    );
    assert_eq!(
        text(&files, "tags/rust.gph"),
        "Tag: Rust\n\n[0|2026-02-01  Second|/posts/b-post.txt|h|7070]\n\
         [0|2026-01-01  First|/posts/a-post.txt|h|7070]\n"
    );
    assert_eq!(
        text(&files, "series/quiet-internet.gph"),
        "Series: Quiet Internet\n\n[0|2026-01-01  First|/posts/a-post.txt|h|7070]\n\
         [0|2026-02-01  Second|/posts/b-post.txt|h|7070]\n"
    );
    let eq = "=".repeat(64);
    let dash = "-".repeat(64);
    assert_eq!(
        text(&files, "posts/b-post.txt"),
        format!(
            "{eq}\nSecond\n2026-02-01\n{eq}\n\nsee x[1]\n\nLinks\n[1] https://x.test\n\n{dash}\n\
             Older: First -> /posts/a-post.txt\nAll posts: /posts\n"
        )
    );
    assert_eq!(
        text(&files, "posts/a-post.txt"),
        format!(
            "{eq}\nFirst\n2026-01-01\nthe start\n{eq}\n\nhello\n\n{dash}\n\
             Newer: Second -> /posts/b-post.txt\nAll posts: /posts\n"
        )
    );
    assert_eq!(text(&files, "about.txt"), "About\n\nNothing here yet.\n");
}

#[test]
fn about_page_is_rendered_when_given() {
    let cfg = parse_args(&args(&["--content", "c", "--out", "o", "--cta-link", "none"]))
        .unwrap()
        .unwrap();
    let files = build_tree(&[], &cfg, Some("# About me\n\nHi.".to_string()));
    assert_eq!(files.len(), 5);
    assert_eq!(text(&files, "about.txt"), "About me\n========\n\nHi.\n");
    assert_eq!(text(&files, "tags/index.gph"), "Tags\n\n");
}
