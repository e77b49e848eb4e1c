//! The published tree: the root menu, the posts, tags and series menus, one
//! text page per post and the about page, each at its path in the snapshot.
//! Menus go through [`with_host`] and [`render_menu_index`]; pages through
//! [`render`].

use vstd::prelude::*;
use vstd::utf8::encode_utf8;
use crate::cli::{Config, ConfigV};
use crate::cmark::markdown_events;
use crate::content::{Post, PostV, posts_view, texts_view};
use crate::markdown::{FootnoteV, RULE, lemma_split_concat, lemma_split_no_sep, render, rendering, split_on};
use crate::publish::{gph_menu, render_menu_index};
use crate::render::{Entry, EntryV, ItemKind, info, link, link_remote, menu_view, stamped, with_host};
use crate::text::{all_digits, chars_of, decimal, lemma_decimal_digits, decimal_of, push_all, push_str, repeat, repeat_char, starts_with, string_of};

verus! {

/// The names a post is filed under: its series when `series`, else its tags.
pub open spec fn names_of(p: PostV, series: bool) -> Seq<Seq<char>> {
    if series { p.series } else { p.tags }
}

/// Every name of every post, in order.
pub open spec fn all_names(ps: Seq<PostV>, series: bool) -> Seq<Seq<char>>
    decreases ps.len(),
{
    if ps.len() == 0 { seq![] } else { all_names(ps.drop_last(), series) + names_of(ps.last(), series) }
}

/// `s` without repeats, each kept where it first occurs.
pub open spec fn distinct(s: Seq<Seq<char>>) -> Seq<Seq<char>>
    decreases s.len(),
{
    if s.len() == 0 {
        seq![]
    } else {
        let d = distinct(s.drop_last());
        if d.contains(s.last()) { d } else { d.push(s.last()) }
    }
}

/// The tags (or series) of the posts, each once, in order of first appearance.
pub open spec fn facets(ps: Seq<PostV>, series: bool) -> Seq<Seq<char>> {
    distinct(all_names(ps, series))
}

/// How many posts are filed under `name`.
pub open spec fn count_having(ps: Seq<PostV>, series: bool, name: Seq<char>) -> nat
    decreases ps.len(),
{
    if ps.len() == 0 {
        0
    } else {
        count_having(ps.drop_last(), series, name) + if names_of(ps.last(), series).contains(name) { 1nat } else { 0nat }
    }
}

/// A name's file stem: ASCII letters lowercased, digits kept, anything else `-`.
pub open spec fn slug_char(c: char) -> char {
    if 'a' <= c && c <= 'z' || '0' <= c && c <= '9' {
        c
    } else if 'A' <= c && c <= 'Z' {
        ((c as u32) + 32) as char
    } else {
        '-'
    }
}

/// The file stem of a tag or series name.
pub open spec fn slugify(name: Seq<char>) -> Seq<char> {
    Seq::new(name.len(), |i: int| slug_char(name[i]))
}

/// A post's line in a menu: `"YYYY-MM-DD  Title"`, pointing at its page.
pub open spec fn post_entry(p: PostV) -> EntryV {
    EntryV::Link {
        kind: ItemKind::Text,
        display: p.date + "  "@ + p.title,
        selector: "/posts/"@ + p.slug + ".txt"@,
        host: None,
        port: None,
    }
}

/// The root menu: banner and blurb, then Posts, Tags, Series, About and, when
/// configured, the link to the cta hole.
pub open spec fn root_entries(cta: Option<(Seq<char>, u16)>) -> Seq<EntryV> {
    seq![
        EntryV::Info("  gopher-blog : a phlog"@),
        EntryV::Info("  the debene.dev blog, reflowed for gopher"@),
        EntryV::Info(seq![]),
        EntryV::Link { kind: ItemKind::Menu, display: "Posts"@, selector: "/posts"@, host: None, port: None },
        EntryV::Link { kind: ItemKind::Menu, display: "Tags"@, selector: "/tags"@, host: None, port: None },
        EntryV::Link { kind: ItemKind::Menu, display: "Series"@, selector: "/series"@, host: None, port: None },
        EntryV::Link { kind: ItemKind::Text, display: "About"@, selector: "/about.txt"@, host: None, port: None },
    ] + match cta {
        Some((h, p)) => seq![
            EntryV::Info(seq![]),
            EntryV::Link { kind: ItemKind::Menu, display: "Live CTA trains"@, selector: "/"@, host: Some(h), port: Some(p) },
        ],
        None => seq![],
    }
}

/// The posts menu: every post, in the order given (newest first).
pub open spec fn posts_entries(ps: Seq<PostV>) -> Seq<EntryV> {
    seq![EntryV::Info("Posts"@), EntryV::Info(seq![])] + ps.map_values(|p: PostV| post_entry(p))
}

/// The line of a tag (with its post count) or of a series in its index.
pub open spec fn facet_entry(ps: Seq<PostV>, series: bool, name: Seq<char>) -> EntryV {
    EntryV::Link {
        kind: ItemKind::Menu,
        display: if series { name } else { name + " ("@ + decimal(count_having(ps, false, name)) + ")"@ },
        selector: (if series { "/series/"@ } else { "/tags/"@ }) + slugify(name) + ".gph"@,
        host: None,
        port: None,
    }
}

/// The tags (or series) index: one line per name, in order of first appearance.
pub open spec fn facet_index(ps: Seq<PostV>, series: bool) -> Seq<EntryV> {
    let names = facets(ps, series);
    seq![EntryV::Info(if series { "Series"@ } else { "Tags"@ }), EntryV::Info(seq![])]
        + Seq::new(names.len(), |k: int| facet_entry(ps, series, names[k]))
}

/// The posts filed under `name`, in the order given.
pub open spec fn in_order(ps: Seq<PostV>, series: bool, name: Seq<char>) -> Seq<EntryV>
    decreases ps.len(),
{
    if ps.len() == 0 {
        seq![]
    } else {
        in_order(ps.drop_last(), series, name) + if names_of(ps.last(), series).contains(name) {
            seq![post_entry(ps.last())]
        } else {
            seq![]
        }
    }
}

/// The posts filed under `name`, in reverse of the order given (oldest first).
pub open spec fn in_reverse(ps: Seq<PostV>, series: bool, name: Seq<char>) -> Seq<EntryV>
    decreases ps.len(),
{
    if ps.len() == 0 {
        seq![]
    } else {
        in_reverse(ps.drop_first(), series, name) + if names_of(ps[0], series).contains(name) {
            seq![post_entry(ps[0])]
        } else {
            seq![]
        }
    }
}

/// A tag's menu (its posts newest first) or a series' menu (oldest first).
pub open spec fn facet_menu(ps: Seq<PostV>, series: bool, name: Seq<char>) -> Seq<EntryV> {
    seq![EntryV::Info((if series { "Series: "@ } else { "Tag: "@ }) + name), EntryV::Info(seq![])]
        + if series { in_reverse(ps, true, name) } else { in_order(ps, false, name) }
}

/// One line of a page's Links section: `[n] url`, and the label in brackets.
pub open spec fn footnote_line(f: FootnoteV) -> Seq<char> {
    "["@ + decimal(f.n) + "] "@ + f.url + match f.label {
        Some(l) => " ("@ + l + ")"@,
        None => seq![],
    } + "\n"@
}

/// The lines of a Links section.
pub open spec fn links_text(fs: Seq<FootnoteV>) -> Seq<char>
    decreases fs.len(),
{
    if fs.len() == 0 { seq![] } else { links_text(fs.drop_last()) + footnote_line(fs.last()) }
}

/// A neighbouring post's line in a page's navigation footer.
pub open spec fn nav_line(label: Seq<char>, q: Option<PostV>) -> Seq<char> {
    match q {
        Some(q) => label + q.title + " -> /posts/"@ + q.slug + ".txt\n"@,
        None => seq![],
    }
}

/// A post's page: a framed header (a rule of `=`, the title, the date, the
/// description when there is one, the rule again), a blank line, the rendered
/// body, a Links section when it has footnotes, and a navigation footer under
/// a rule of `-`: the newer and older neighbours (the posts before and after
/// it in the given order), then the way back to the posts menu.
pub open spec fn post_text(p: PostV, newer: Option<PostV>, older: Option<PostV>) -> Seq<char> {
    let r = rendering(markdown_events(p.body), p.slug);
    let frame = repeat('=', RULE as nat) + "\n"@;
    frame + p.title + "\n"@ + p.date + "\n"@ + (if p.description.len() > 0 { p.description + "\n"@ } else { seq![] })
        + frame + "\n"@ + r.body + "\n"@
        + (if r.footnotes.len() > 0 { "\nLinks\n"@ + links_text(r.footnotes) } else { seq![] })
        + "\n"@ + repeat('-', RULE as nat) + "\n"@ + nav_line("Newer: "@, newer) + nav_line("Older: "@, older)
        + "All posts: /posts\n"@
}

/// The post before position `i` (its newer neighbour), if any.
pub open spec fn newer_of(ps: Seq<PostV>, i: int) -> Option<PostV> {
    if i > 0 { Some(ps[i - 1]) } else { None }
}

/// The post after position `i` (its older neighbour), if any.
pub open spec fn older_of(ps: Seq<PostV>, i: int) -> Option<PostV> {
    if i + 1 < ps.len() { Some(ps[i + 1]) } else { None }
}

/// The post pages, one per post, in the order given.
pub open spec fn post_files(ps: Seq<PostV>) -> Seq<(Seq<char>, Seq<u8>)> {
    Seq::new(ps.len(), |i: int| (
        "posts/"@ + ps[i].slug + ".txt"@,
        encode_utf8(post_text(ps[i], newer_of(ps, i), older_of(ps, i))),
    ))
}

/// The about page: the about source rendered, or a stub when there is none.
pub open spec fn about_text(about: Option<Seq<char>>) -> Seq<char> {
    match about {
        Some(src) => rendering(markdown_events(src), "about"@).body + "\n"@,
        None => "About\n\nNothing here yet.\n"@,
    }
}

/// A menu file's bytes: the menu stamped with the tree's host and port, as a
/// `.gph` index.
pub open spec fn menu_bytes(es: Seq<EntryV>, cfg: ConfigV) -> Seq<u8> {
    encode_utf8(gph_menu(es.map_values(|e: EntryV| stamped(e, cfg.host, cfg.port))))
}

/// The tag (or series) menu files, one per name.
pub open spec fn facet_files(ps: Seq<PostV>, series: bool, cfg: ConfigV) -> Seq<(Seq<char>, Seq<u8>)> {
    let names = facets(ps, series);
    Seq::new(names.len(), |k: int| (
        (if series { "series/"@ } else { "tags/"@ }) + slugify(names[k]) + ".gph"@,
        menu_bytes(facet_menu(ps, series, names[k]), cfg),
    ))
}

/// The whole tree, in this order: `index.gph`, `posts/index.gph`,
/// `tags/index.gph`, `series/index.gph`, `about.txt`, `posts/<slug>.txt` per
/// post, `tags/<tag>.gph` per tag and `series/<series>.gph` per series.
pub open spec fn tree_of(ps: Seq<PostV>, cfg: ConfigV, about: Option<Seq<char>>) -> Seq<(Seq<char>, Seq<u8>)> {
    seq![
        ("index.gph"@, menu_bytes(root_entries(cfg.cta_link), cfg)),
        ("posts/index.gph"@, menu_bytes(posts_entries(ps), cfg)),
        ("tags/index.gph"@, menu_bytes(facet_index(ps, false), cfg)),
        ("series/index.gph"@, menu_bytes(facet_index(ps, true), cfg)),
        ("about.txt"@, encode_utf8(about_text(about))),
    ]
        + post_files(ps)
        + facet_files(ps, false, cfg)
        + facet_files(ps, true, cfg)
}

/// The paths and contents of a list of files.
pub open spec fn tree_view(fs: Seq<(String, Vec<u8>)>) -> Seq<(Seq<char>, Seq<u8>)> {
    fs.map_values(|f: (String, Vec<u8>)| (f.0@, f.1@))
}

/// The text of an optional string.
pub open spec fn about_view(a: Option<String>) -> Option<Seq<char>> {
    match a {
        Some(s) => Some(s@),
        None => None,
    }
}


proof fn lemma_in_order(ps: Seq<PostV>, t: Seq<char>)
    ensures
        in_order(ps, false, t) == ps.filter(|p: PostV| p.tags.contains(t)).map_values(|p: PostV| post_entry(p)),
        count_having(ps, false, t) == ps.filter(|p: PostV| p.tags.contains(t)).len(),
    decreases ps.len(),
{
    reveal(Seq::filter);
    if ps.len() > 0 {
        lemma_in_order(ps.drop_last(), t);
        let f0 = ps.drop_last().filter(|p: PostV| p.tags.contains(t));
        let f = ps.filter(|p: PostV| p.tags.contains(t));
        if ps.last().tags.contains(t) {
            assert(f == f0.push(ps.last()));
            assert(f.map_values(|p: PostV| post_entry(p)) =~= f0.map_values(|p: PostV| post_entry(p)).push(post_entry(ps.last())));
        } else {
            assert(f == f0);
        }
        assert(in_order(ps, false, t) =~= f.map_values(|p: PostV| post_entry(p)));
    }
}

proof fn lemma_in_reverse(ps: Seq<PostV>, t: Seq<char>)
    ensures
        in_reverse(ps, true, t) == ps.filter(|p: PostV| p.series.contains(t)).reverse().map_values(|p: PostV| post_entry(p)),
    decreases ps.len(),
{
    reveal(Seq::filter);
    if ps.len() > 0 {
        let rest = ps.drop_first();
        lemma_in_reverse(rest, t);
        let pred = |p: PostV| p.series.contains(t);
        assert(ps =~= seq![ps[0]] + rest);
        Seq::filter_distributes_over_add(seq![ps[0]], rest, pred);
        let head = seq![ps[0]].filter(pred);
        assert(seq![ps[0]].drop_last() =~= Seq::<PostV>::empty());
        assert(Seq::<PostV>::empty().filter(pred) =~= Seq::<PostV>::empty());
        assert(seq![ps[0]].last() == ps[0]);
        let f = ps.filter(pred);
        let fr = rest.filter(pred);
        assert(f == head + fr);
        if ps[0].series.contains(t) {
            assert(head =~= seq![ps[0]]);
            assert(f.reverse() =~= fr.reverse().push(ps[0]));
            assert(f.reverse().map_values(|p: PostV| post_entry(p)) =~= fr.reverse().map_values(|p: PostV| post_entry(p)).push(post_entry(ps[0])));
        } else {
            assert(head =~= Seq::<PostV>::empty());
            assert(f =~= fr);
        }
        assert(in_reverse(ps, true, t) =~= f.reverse().map_values(|p: PostV| post_entry(p)));
    }
}

/// Law: a tag's menu lists exactly the posts that carry the tag, in the order
/// given (newest first), as many as its line in the tags index counts; a
/// series' menu lists exactly the posts of the series, in reverse of the
/// order given (oldest first).
pub proof fn lemma_facet_menus(ps: Seq<PostV>, t: Seq<char>)
    ensures
        facet_menu(ps, false, t) == seq![EntryV::Info("Tag: "@ + t), EntryV::Info(seq![])]
            + ps.filter(|p: PostV| p.tags.contains(t)).map_values(|p: PostV| post_entry(p)),
        count_having(ps, false, t) == ps.filter(|p: PostV| p.tags.contains(t)).len(),
        facet_menu(ps, true, t) == seq![EntryV::Info("Series: "@ + t), EntryV::Info(seq![])]
            + ps.filter(|p: PostV| p.series.contains(t)).reverse().map_values(|p: PostV| post_entry(p)),
{
    lemma_in_order(ps, t);
    lemma_in_reverse(ps, t);
}

/// The text of a footnote's line in the Links section: `[n] url`, then
/// ` (label)` when it has a label.
pub open spec fn note_text(f: FootnoteV) -> Seq<char> {
    "["@ + decimal(f.n) + "] "@ + f.url + match f.label {
        Some(l) => " ("@ + l + ")"@,
        None => seq![],
    }
}

/// No newline in a text.
pub open spec fn one_line(s: Seq<char>) -> bool {
    forall|i: int| 0 <= i < s.len() ==> s[i] != '\n'
}

proof fn lemma_note_one_line(f: FootnoteV)
    requires
        one_line(f.url),
        f.label matches Some(l) ==> one_line(l),
    ensures
        one_line(note_text(f)),
{
    reveal_strlit("[");
    reveal_strlit("] ");
    reveal_strlit(" (");
    reveal_strlit(")");
    lemma_decimal_digits(f.n);
    let d = decimal(f.n);
    let x = note_text(f);
    assert forall|i: int| 0 <= i < x.len() implies x[i] != '\n' by {
        if 1 <= i < 1 + d.len() {
            assert(x[i] == d[i - 1]);
            assert(crate::text::is_digit(d[i - 1]));
        } else if 3 + d.len() <= i < 3 + d.len() + f.url.len() {
            assert(x[i] == f.url[i - 3 - d.len()]);
        } else if i >= 3 + d.len() + f.url.len() {
            match f.label {
                Some(l) => {
                    let k = i - 3 - d.len() - f.url.len();
                    if 2 <= k < 2 + l.len() {
                        assert(x[i] == l[k - 2]);
                    }
                },
                None => {},
            }
        }
    }
}

proof fn lemma_split_line_end(a: Seq<char>, body: Seq<char>)
    requires
        a.len() > 0 ==> a.last() == '\n',
        one_line(body),
    ensures
        split_on(a + body + seq!['\n'], '\n') == split_on(a, '\n').drop_last() + seq![body, seq![]],
{
    lemma_split_concat(body, seq![], '\n');
    assert(body + seq!['\n'] + seq![] =~= body + seq!['\n']);
    lemma_split_no_sep(body, '\n');
    assert(split_on(seq![], '\n') =~= seq![seq![]]);
    let y = body + seq!['\n'];
    assert(split_on(y, '\n') =~= seq![body, seq![]]);
    if a.len() == 0 {
        assert(a + body + seq!['\n'] =~= y);
        assert(split_on(a, '\n') =~= seq![seq![]]);
        assert(split_on(a, '\n').drop_last() + seq![body, seq![]] =~= seq![body, seq![]]);
    } else {
        let a0 = a.drop_last();
        lemma_split_concat(a0, y, '\n');
        assert(a0 + seq!['\n'] + y =~= a + body + seq!['\n']);
        lemma_split_concat(a0, seq![], '\n');
        assert(a0 + seq!['\n'] + seq![] =~= a);
        assert(split_on(a, '\n').drop_last() =~= split_on(a0, '\n'));
    }
}

proof fn lemma_links_end(fs: Seq<FootnoteV>)
    ensures
        fs.len() > 0 ==> links_text(fs).len() > 0 && links_text(fs).last() == '\n',
{
    if fs.len() > 0 {
        reveal_strlit("\n");
        let x = footnote_line(fs.last());
        assert(x.len() > 0 && x.last() == '\n');
        assert(links_text(fs) == links_text(fs.drop_last()) + x);
    }
}

/// Law: the Links section has one line per footnote, in order, each giving the
/// footnote's number and address (and its label, for images and tables), so
/// that every reference in the body is listed (when no address or label holds
/// a newline).
pub proof fn lemma_links_lines(fs: Seq<FootnoteV>)
    requires
        forall|i: int| 0 <= i < fs.len() ==> one_line(#[trigger] fs[i].url) && (fs[i].label matches Some(l) ==> one_line(l)),
    ensures
        split_on(links_text(fs), '\n') == Seq::new(fs.len(), |i: int| note_text(fs[i])) + seq![seq![]],
    decreases fs.len(),
{
    if fs.len() == 0 {
        assert(split_on(seq![], '\n') =~= seq![seq![]]);
        assert(Seq::new(0, |i: int| note_text(fs[i])) + seq![seq![]] =~= seq![seq![]]);
    } else {
        let init = fs.drop_last();
        assert forall|i: int| 0 <= i < init.len() implies one_line(#[trigger] init[i].url) && (init[i].label matches Some(l) ==> one_line(l)) by {
            assert(init[i] == fs[i]);
        }
        lemma_links_lines(init);
        let f = fs.last();
        assert(one_line(fs[fs.len() - 1].url));
        lemma_note_one_line(f);
        let a = links_text(init);
        lemma_links_end(init);
        assert(footnote_line(f) =~= note_text(f) + seq!['\n']) by {
            reveal_strlit("\n");
        }
        assert(links_text(fs) =~= a + note_text(f) + seq!['\n']);
        lemma_split_line_end(a, note_text(f));
        assert(split_on(links_text(fs), '\n') =~= Seq::new(fs.len(), |i: int| note_text(fs[i])) + seq![seq![]]);
    }
}

/// A `String` holding the text of `s`.
fn text(s: &str) -> (r: String)
    ensures
        r@ == s@,
{
    string_of(&chars_of(s))
}

/// The names a post is filed under, as characters.
fn names_vec(p: &Post, series: bool) -> (r: &Vec<String>)
    ensures
        texts_view(r@) == names_of(p@, series),
{
    if series { &p.series } else { &p.tags }
}

/// Whether two character sequences are equal.
fn same_chars(a: &[char], b: &[char]) -> (r: bool)
    ensures
        r == (a@ == b@),
{
    let r = a.len() == b.len() && starts_with(a, b);
    proof {
        if a@.len() == b@.len() && crate::text::has_prefix(a@, b@) {
            assert(a@ =~= b@.take(b@.len() as int));
            assert(b@.take(b@.len() as int) =~= b@);
        }
        if a@ == b@ {
            assert(a@.take(b@.len() as int) =~= b@);
        }
    }
    r
}

/// Whether `name` is among `list`.
fn has_name(list: &Vec<String>, name: &[char]) -> (r: bool)
    ensures
        r == texts_view(list@).contains(name@),
{
    let mut i: usize = 0;
    while i < list.len()
        invariant
            i <= list@.len(),
            forall|k: int| 0 <= k < i ==> texts_view(list@)[k] != name@,
        decreases list@.len() - i,
    {
        let c = chars_of(list[i].as_str());
        if same_chars(&c, name) {
            assert(texts_view(list@)[i as int] == name@);
            return true;
        }
        i = i + 1;
    }
    false
}

/// Whether `name` is among the character sequences of `list`.
fn has_chars(list: &Vec<Vec<char>>, name: &[char]) -> (r: bool)
    ensures
        r == list@.map_values(|v: Vec<char>| v@).contains(name@),
{
    let ghost view = list@.map_values(|v: Vec<char>| v@);
    let mut i: usize = 0;
    while i < list.len()
        invariant
            i <= list@.len(),
            view == list@.map_values(|v: Vec<char>| v@),
            forall|k: int| 0 <= k < i ==> view[k] != name@,
        decreases list@.len() - i,
    {
        if same_chars(list[i].as_slice(), name) {
            assert(view[i as int] == name@);
            return true;
        }
        i = i + 1;
    }
    false
}

/// The tags (or series) of the posts, each once (see [`facets`]).
fn facet_names(posts: &[Post], series: bool) -> (r: Vec<Vec<char>>)
    ensures
        r@.map_values(|v: Vec<char>| v@) == facets(posts_view(posts@), series),
{
    let ghost ps = posts_view(posts@);
    let mut out: Vec<Vec<char>> = Vec::new();
    let mut i: usize = 0;
    while i < posts.len()
        invariant
            i <= posts@.len(),
            ps == posts_view(posts@),
            out@.map_values(|v: Vec<char>| v@) == distinct(all_names(ps.take(i as int), series)),
        decreases posts@.len() - i,
    {
        let names = names_vec(&posts[i], series);
        let ghost before = all_names(ps.take(i as int), series);
        let mut j: usize = 0;
        while j < names.len()
            invariant
                j <= names@.len(),
                texts_view(names@) == names_of(ps[i as int], series),
                out@.map_values(|v: Vec<char>| v@) == distinct(before + texts_view(names@).take(j as int)),
            decreases names@.len() - j,
        {
            let c = chars_of(names[j].as_str());
            let ghost cur = before + texts_view(names@).take(j as int);
            let ghost next = before + texts_view(names@).take(j + 1);
            assert(next.drop_last() =~= cur);
            assert(next.last() == c@);
            if !has_chars(&out, &c) {
                out.push(c);
                assert(out@.map_values(|v: Vec<char>| v@) =~= distinct(cur).push(c@));
            }
            j = j + 1;
        }
        assert(ps.take(i + 1).drop_last() =~= ps.take(i as int));
        assert(texts_view(names@).take(names@.len() as int) =~= texts_view(names@));
        i = i + 1;
    }
    assert(ps.take(posts@.len() as int) =~= ps);
    out
}

/// How many posts are filed under `name` (see [`count_having`]).
fn count_with(posts: &[Post], series: bool, name: &[char]) -> (r: usize)
    ensures
        r == count_having(posts_view(posts@), series, name@),
{
    let ghost ps = posts_view(posts@);
    let mut n: usize = 0;
    let mut i: usize = 0;
    while i < posts.len()
        invariant
            i <= posts@.len(),
            ps == posts_view(posts@),
            n == count_having(ps.take(i as int), series, name@),
            n <= i,
        decreases posts@.len() - i,
    {
        assert(ps.take(i + 1).drop_last() =~= ps.take(i as int));
        if has_name(names_vec(&posts[i], series), name) {
            n = n + 1;
        }
        i = i + 1;
    }
    assert(ps.take(posts@.len() as int) =~= ps);
    n
}

/// The file stem of a name (see [`slugify`]).
fn slug_of(name: &[char]) -> (r: Vec<char>)
    ensures
        r@ == slugify(name@),
{
    let mut r: Vec<char> = Vec::new();
    let mut i: usize = 0;
    while i < name.len()
        invariant
            i <= name@.len(),
            r@ =~= slugify(name@).take(i as int),
        decreases name@.len() - i,
    {
        let c = name[i];
        let d = if 'a' <= c && c <= 'z' || '0' <= c && c <= '9' {
            c
        } else if 'A' <= c && c <= 'Z' {
            ((c as u8) + 32) as char
        } else {
            '-'
        };
        r.push(d);
        i = i + 1;
    }
    r
}


/// Appends a menu line.
fn push_entry(v: &mut Vec<Entry>, e: Entry)
    ensures
        menu_view(final(v)@) == menu_view(old(v)@).push(e@),
{
    let ghost e_view = e@;
    v.push(e);
    assert(menu_view(v@) =~= menu_view(old(v)@).push(e_view));
}

/// A post's line in a menu (see [`post_entry`]).
fn post_link(p: &Post) -> (r: Entry)
    ensures
        r@ == post_entry(p@),
{
    let mut display = chars_of(p.date.as_str());
    push_str(&mut display, "  ");
    push_all(&mut display, &chars_of(p.title.as_str()));
    let mut sel = chars_of("/posts/");
    push_all(&mut sel, &chars_of(p.slug.as_str()));
    push_str(&mut sel, ".txt");
    link(ItemKind::Text, string_of(&display), string_of(&sel))
}

/// The root menu (see [`root_entries`]).
fn root_menu(cfg: &Config) -> (r: Vec<Entry>)
    ensures
        menu_view(r@) == root_entries(cfg@.cta_link),
{
    let mut v: Vec<Entry> = Vec::new();
    push_entry(&mut v, info(text("  gopher-blog : a phlog")));
    push_entry(&mut v, info(text("  the debene.dev blog, reflowed for gopher")));
    push_entry(&mut v, info(String::new()));
    push_entry(&mut v, link(ItemKind::Menu, text("Posts"), text("/posts")));
    push_entry(&mut v, link(ItemKind::Menu, text("Tags"), text("/tags")));
    push_entry(&mut v, link(ItemKind::Menu, text("Series"), text("/series")));
    push_entry(&mut v, link(ItemKind::Text, text("About"), text("/about.txt")));
    match &cfg.cta_link {
        Some((h, p)) => {
            push_entry(&mut v, info(String::new()));
            push_entry(&mut v, link_remote(ItemKind::Menu, text("Live CTA trains"), text("/"), text(h.as_str()), *p));
        },
        None => {},
    }
    assert(menu_view(v@) =~= root_entries(cfg@.cta_link));
    v
}

/// The posts menu (see [`posts_entries`]).
fn posts_menu(posts: &[Post]) -> (r: Vec<Entry>)
    ensures
        menu_view(r@) == posts_entries(posts_view(posts@)),
{
    let ghost ps = posts_view(posts@);
    let mut v: Vec<Entry> = Vec::new();
    push_entry(&mut v, info(text("Posts")));
    push_entry(&mut v, info(String::new()));
    let ghost head = seq![EntryV::Info("Posts"@), EntryV::Info(seq![])];
    assert(menu_view(v@) =~= head);
    let mut i: usize = 0;
    while i < posts.len()
        invariant
            i <= posts@.len(),
            ps == posts_view(posts@),
            head == seq![EntryV::Info("Posts"@), EntryV::Info(seq![])],
            menu_view(v@) =~= head + ps.take(i as int).map_values(|p: PostV| post_entry(p)),
        decreases posts@.len() - i,
    {
        let e = post_link(&posts[i]);
        push_entry(&mut v, e);
        assert(ps.take(i + 1).map_values(|p: PostV| post_entry(p)) =~= ps.take(i as int).map_values(|p: PostV| post_entry(p)).push(post_entry(ps[i as int])));
        i = i + 1;
    }
    assert(ps.take(posts@.len() as int) =~= ps);
    v
}

/// A tag's or series' line in its index (see [`facet_entry`]).
fn facet_link(posts: &[Post], series: bool, name: &[char]) -> (r: Entry)
    ensures
        r@ == facet_entry(posts_view(posts@), series, name@),
{
    let mut display: Vec<char> = Vec::new();
    push_all(&mut display, name);
    if !series {
        let n = count_with(posts, false, name);
        push_str(&mut display, " (");
        push_all(&mut display, &decimal_of(n as u64));
        push_str(&mut display, ")");
    }
    let mut sel = if series { chars_of("/series/") } else { chars_of("/tags/") };
    push_all(&mut sel, &slug_of(name));
    push_str(&mut sel, ".gph");
    link(ItemKind::Menu, string_of(&display), string_of(&sel))
}

/// The tags (or series) index (see [`facet_index`]).
fn facet_index_menu(posts: &[Post], series: bool, names: &Vec<Vec<char>>) -> (r: Vec<Entry>)
    requires
        names@.map_values(|v: Vec<char>| v@) == facets(posts_view(posts@), series),
    ensures
        menu_view(r@) == facet_index(posts_view(posts@), series),
{
    let ghost ps = posts_view(posts@);
    let ghost fs = facets(ps, series);
    let mut v: Vec<Entry> = Vec::new();
    push_entry(&mut v, info(if series { text("Series") } else { text("Tags") }));
    push_entry(&mut v, info(String::new()));
    let ghost head = seq![EntryV::Info(if series { "Series"@ } else { "Tags"@ }), EntryV::Info(seq![])];
    assert(menu_view(v@) =~= head);
    let mut k: usize = 0;
    while k < names.len()
        invariant
            k <= names@.len(),
            ps == posts_view(posts@),
            fs == facets(ps, series),
            names@.map_values(|v: Vec<char>| v@) == fs,
            head == seq![EntryV::Info(if series { "Series"@ } else { "Tags"@ }), EntryV::Info(seq![])],
            menu_view(v@) =~= head + Seq::new(k as nat, |j: int| facet_entry(ps, series, fs[j])),
        decreases names@.len() - k,
    {
        assert(names@[k as int]@ == fs[k as int]);
        let e = facet_link(posts, series, names[k].as_slice());
        push_entry(&mut v, e);
        assert(Seq::new((k + 1) as nat, |j: int| facet_entry(ps, series, fs[j])) =~= Seq::new(k as nat, |j: int| facet_entry(ps, series, fs[j])).push(facet_entry(ps, series, fs[k as int])));
        k = k + 1;
    }
    v
}


/// A tag's or a series' menu (see [`facet_menu`]).
fn facet_menu_of(posts: &[Post], series: bool, name: &[char]) -> (r: Vec<Entry>)
    ensures
        menu_view(r@) == facet_menu(posts_view(posts@), series, name@),
{
    let ghost ps = posts_view(posts@);
    let mut title = if series { chars_of("Series: ") } else { chars_of("Tag: ") };
    push_all(&mut title, name);
    let mut v: Vec<Entry> = Vec::new();
    push_entry(&mut v, info(string_of(&title)));
    push_entry(&mut v, info(String::new()));
    let ghost head = menu_view(v@);
    if series {
        let mut i: usize = posts.len();
        while i > 0
            invariant
                i <= posts@.len(),
                ps == posts_view(posts@),
                menu_view(v@) == head + in_reverse(ps.skip(i as int), true, name@),
            decreases i,
        {
            i = i - 1;
            assert(ps.skip(i as int).drop_first() =~= ps.skip(i + 1));
            assert(ps.skip(i as int)[0] == ps[i as int]);
            if has_name(names_vec(&posts[i], true), name) {
                push_entry(&mut v, post_link(&posts[i]));
            }
            assert(menu_view(v@) =~= head + in_reverse(ps.skip(i as int), true, name@));
        }
        assert(ps.skip(0) =~= ps);
    } else {
        let mut i: usize = 0;
        while i < posts.len()
            invariant
                i <= posts@.len(),
                ps == posts_view(posts@),
                menu_view(v@) == head + in_order(ps.take(i as int), false, name@),
            decreases posts@.len() - i,
        {
            assert(ps.take(i + 1).drop_last() =~= ps.take(i as int));
            if has_name(names_vec(&posts[i], false), name) {
                push_entry(&mut v, post_link(&posts[i]));
            }
            assert(menu_view(v@) =~= head + in_order(ps.take(i + 1), false, name@));
            i = i + 1;
        }
        assert(ps.take(posts@.len() as int) =~= ps);
    }
    v
}

/// The Links section's lines (see [`links_text`]).
fn links_of(fs: &Vec<crate::markdown::Footnote>) -> (r: Vec<char>)
    ensures
        r@ == links_text(fs@.map_values(|f: crate::markdown::Footnote| f@)),
{
    let ghost fv = fs@.map_values(|f: crate::markdown::Footnote| f@);
    let mut out: Vec<char> = Vec::new();
    let mut i: usize = 0;
    while i < fs.len()
        invariant
            i <= fs@.len(),
            fv == fs@.map_values(|f: crate::markdown::Footnote| f@),
            out@ == links_text(fv.take(i as int)),
        decreases fs@.len() - i,
    {
        let f = &fs[i];
        assert(fv.take(i + 1).drop_last() =~= fv.take(i as int));
        assert(fv[i as int] == f@);
        push_str(&mut out, "[");
        push_all(&mut out, &decimal_of(f.n as u64));
        push_str(&mut out, "] ");
        push_all(&mut out, &chars_of(f.url.as_str()));
        match &f.label {
            Some(l) => {
                push_str(&mut out, " (");
                push_all(&mut out, &chars_of(l.as_str()));
                push_str(&mut out, ")");
            },
            None => {},
        }
        push_str(&mut out, "\n");
        assert(out@ =~= links_text(fv.take(i + 1)));
        i = i + 1;
    }
    assert(fv.take(fs@.len() as int) =~= fv);
    out
}

/// A neighbour's navigation line (see [`nav_line`]).
fn push_nav(out: &mut Vec<char>, label: &str, q: Option<&Post>)
    ensures
        final(out)@ == old(out)@ + nav_line(label@, match q { Some(q) => Some(q@), None => None }),
{
    match q {
        Some(q) => {
            push_str(out, label);
            push_all(out, &chars_of(q.title.as_str()));
            push_str(out, " -> /posts/");
            push_all(out, &chars_of(q.slug.as_str()));
            push_str(out, ".txt\n");
        },
        None => {
            assert(old(out)@ + seq![] =~= old(out)@);
        },
    }
}

/// A post's page (see [`post_text`]).
fn post_page(p: &Post, newer: Option<&Post>, older: Option<&Post>) -> (r: String)
    ensures
        r@ == post_text(
            p@,
            match newer { Some(q) => Some(q@), None => None },
            match older { Some(q) => Some(q@), None => None },
        ),
{
    let rendered = render(p.body.as_str(), p.slug.as_str());
    let mut frame = repeat_char('=', RULE);
    push_str(&mut frame, "\n");
    let mut out: Vec<char> = Vec::new();
    push_all(&mut out, &frame);
    push_all(&mut out, &chars_of(p.title.as_str()));
    push_str(&mut out, "\n");
    push_all(&mut out, &chars_of(p.date.as_str()));
    push_str(&mut out, "\n");
    let desc = chars_of(p.description.as_str());
    if desc.len() > 0 {
        push_all(&mut out, &desc);
        push_str(&mut out, "\n");
    }
    push_all(&mut out, &frame);
    push_str(&mut out, "\n");
    push_all(&mut out, &chars_of(rendered.body.as_str()));
    push_str(&mut out, "\n");
    if rendered.footnotes.len() > 0 {
        push_str(&mut out, "\nLinks\n");
        push_all(&mut out, &links_of(&rendered.footnotes));
    }
    push_str(&mut out, "\n");
    push_all(&mut out, &repeat_char('-', RULE));
    push_str(&mut out, "\n");
    push_nav(&mut out, "Newer: ", newer);
    push_nav(&mut out, "Older: ", older);
    push_str(&mut out, "All posts: /posts\n");
    string_of(&out)
}

/// The about page (see [`about_text`]).
fn about_page(about: &Option<String>) -> (r: String)
    ensures
        r@ == about_text(about_view(*about)),
{
    match about {
        Some(src) => {
            let rendered = render(src.as_str(), "about");
            let mut out = chars_of(rendered.body.as_str());
            push_str(&mut out, "\n");
            string_of(&out)
        },
        None => text("About\n\nNothing here yet.\n"),
    }
}


/// The bytes of a `String`'s UTF-8 encoding.
fn bytes_of(s: &String) -> (r: Vec<u8>)
    ensures
        r@ == encode_utf8(s@),
{
    vstd::slice::slice_to_vec(s.as_str().as_bytes())
}

/// A menu file: `entries` stamped with the tree's host and port, serialized.
fn menu_file(path: &str, entries: Vec<Entry>, cfg: &Config) -> (r: (String, Vec<u8>))
    ensures
        r.0@ == path@,
        r.1@ == menu_bytes(menu_view(entries@), cfg@),
{
    let ghost es = menu_view(entries@);
    let stamped_entries = with_host(entries, cfg.host.as_str(), cfg.port);
    assert(menu_view(stamped_entries@) =~= es.map_values(|e: EntryV| stamped(e, cfg@.host, cfg@.port)));
    let gph = render_menu_index(stamped_entries.as_slice());
    (text(path), bytes_of(&gph))
}

/// Appends one file.
fn push_file(v: &mut Vec<(String, Vec<u8>)>, f: (String, Vec<u8>))
    ensures
        tree_view(final(v)@) == tree_view(old(v)@).push((f.0@, f.1@)),
{
    let ghost fv = (f.0@, f.1@);
    v.push(f);
    assert(tree_view(v@) =~= tree_view(old(v)@).push(fv));
}

/// The tag (or series) menu files (see [`facet_files`]).
fn push_facet_files(v: &mut Vec<(String, Vec<u8>)>, posts: &[Post], series: bool, names: &Vec<Vec<char>>, cfg: &Config)
    requires
        names@.map_values(|n: Vec<char>| n@) == facets(posts_view(posts@), series),
    ensures
        tree_view(final(v)@) == tree_view(old(v)@) + facet_files(posts_view(posts@), series, cfg@),
{
    let ghost ps = posts_view(posts@);
    let ghost fs = facets(ps, series);
    let ghost start = tree_view(v@);
    let ghost all = facet_files(ps, series, cfg@);
    let mut k: usize = 0;
    while k < names.len()
        invariant
            k <= names@.len(),
            ps == posts_view(posts@),
            fs == facets(ps, series),
            all == facet_files(ps, series, cfg@),
            names@.map_values(|n: Vec<char>| n@) == fs,
            tree_view(v@) == start + all.take(k as int),
        decreases names@.len() - k,
    {
        let name = names[k].as_slice();
        assert(names@[k as int]@ == fs[k as int]);
        let mut path = if series { chars_of("series/") } else { chars_of("tags/") };
        push_all(&mut path, &slug_of(name));
        push_str(&mut path, ".gph");
        let menu = facet_menu_of(posts, series, name);
        let p = string_of(&path);
        let f = menu_file(p.as_str(), menu, cfg);
        push_file(v, f);
        assert(all.take(k + 1) =~= all.take(k as int).push(all[k as int]));
        k = k + 1;
    }
    assert(all.take(names@.len() as int) =~= all);
}

/// The page file of the post at `i` (see [`post_files`]).
fn page_file(posts: &[Post], i: usize) -> (r: (String, Vec<u8>))
    requires
        i < posts@.len(),
    ensures
        (r.0@, r.1@) == post_files(posts_view(posts@))[i as int],
{
    let p = &posts[i];
    let mut path = chars_of("posts/");
    push_all(&mut path, &chars_of(p.slug.as_str()));
    push_str(&mut path, ".txt");
    let newer = if i > 0 { Some(&posts[i - 1]) } else { None };
    let older = if i + 1 < posts.len() { Some(&posts[i + 1]) } else { None };
    let page = post_page(p, newer, older);
    (string_of(&path), bytes_of(&page))
}

/// The whole published tree (see [`tree_of`]): the root, posts, tags and
/// series menus, the about page, one page per post and one menu per tag and
/// series. `about` is the about page's markdown, when there is one.
pub fn build_tree(posts: &[Post], cfg: &Config, about: Option<String>) -> (r: Vec<(String, Vec<u8>)>)
    ensures
        tree_view(r@) == tree_of(posts_view(posts@), cfg@, about_view(about)),
{
    let ghost ps = posts_view(posts@);
    let tags = facet_names(posts, false);
    let series = facet_names(posts, true);
    let mut files: Vec<(String, Vec<u8>)> = Vec::new();
    push_file(&mut files, menu_file("index.gph", root_menu(cfg), cfg));
    push_file(&mut files, menu_file("posts/index.gph", posts_menu(posts), cfg));
    push_file(&mut files, menu_file("tags/index.gph", facet_index_menu(posts, false, &tags), cfg));
    push_file(&mut files, menu_file("series/index.gph", facet_index_menu(posts, true, &series), cfg));
    let about_txt = about_page(&about);
    push_file(&mut files, (text("about.txt"), bytes_of(&about_txt)));
    let ghost head = tree_view(files@);
    let ghost pages = post_files(ps);
    let mut i: usize = 0;
    while i < posts.len()
        invariant
            i <= posts@.len(),
            ps == posts_view(posts@),
            pages == post_files(ps),
            tree_view(files@) == head + pages.take(i as int),
        decreases posts@.len() - i,
    {
        let f = page_file(posts, i);
        push_file(&mut files, f);
        assert(pages.take(i + 1) =~= pages.take(i as int).push(pages[i as int]));
        i = i + 1;
    }
    assert(pages.take(posts@.len() as int) =~= pages);
    push_facet_files(&mut files, posts, false, &tags, cfg);
    push_facet_files(&mut files, posts, true, &series, cfg);
    assert(tree_view(files@) =~= tree_of(ps, cfg@, about_view(about)));
    files
}

} // verus!
