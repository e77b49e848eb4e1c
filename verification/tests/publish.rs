use gopher_blog::publish::render_menu_index;
use gopher_blog::render::{self, ItemKind};

#[test]
fn menu_index_renders_geomyidae_gph() {
    let entries = vec![
        render::info("  gopher-blog : a phlog".to_string()),
        render::link(ItemKind::Menu, "Posts".to_string(), "/posts".to_string()),
        render::link(ItemKind::Text, "About".to_string(), "/about.txt".to_string()),
        render::link_remote(
            ItemKind::Menu,
            "Live CTA trains".to_string(),
            "/".to_string(),
            "gopher.debene.dev".to_string(),
            70,
        ),
    ];
    let gph = render_menu_index(&entries);
    assert!(gph.contains("  gopher-blog : a phlog\n"));
    assert!(gph.contains("[1|Posts|/posts|server|port]\n"));
    assert!(gph.contains("[0|About|/about.txt|server|port]\n"));
    assert!(gph.contains("[1|Live CTA trains|/|gopher.debene.dev|70]\n"));
    assert!(!gph.contains("\t"));
}
