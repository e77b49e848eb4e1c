//! Markdown to gopher text. A markdown string (plus the post slug, needed to
//! resolve relative URLs) goes in; a reflowed gopher-text body and a collected
//! footnote table come out.
//!
//! Covered: headings (underlined), paragraphs (70-column word wrap), code fences
//! (verbatim between thin rules), inline links (footnoted), images (`[img: alt]`
//! plus footnote), lists, blockquotes, and tables (aligned when they fit, else a
//! "see web" pointer).

use vstd::prelude::*;
use crate::cmark::{EventV, MdEvent, MdTag, MdTagEnd, TagV, events_view, markdown_events, parse_markdown};
use crate::text::{
    chars_of, decimal, decimal_of, is_digit, lemma_decimal_digits, has_prefix, push_all, push_str, repeat, repeat_char,
    slice_chars, starts_with_str, string_of, trim, trim_chars, words, split_words,
};
use crate::wrap::{fits_or_one_word, lemma_text_words, lemma_wrap_fits, lemma_wrap_keeps_words, no_ws, unwords, wrap_into, wrap_lines};
pub use crate::wrap::wrap;

verus! {

/// Body word-wrap column.
pub const WRAP: usize = 70;

/// Width of the thin rule that brackets a code block.
pub const RULE: usize = 64;

/// One footnote: a link or image reference collected from the body. `label` is
/// `Some("img: <alt>")` for images, `Some("table")` for the table fallback and
/// `None` for plain links. Links, images and tables share one numbering.
#[derive(Debug, Clone, PartialEq)]
pub struct Footnote {
    pub n: usize,
    pub url: String,
    pub label: Option<String>,
}

/// A footnote's value.
pub struct FootnoteV {
    pub n: nat,
    pub url: Seq<char>,
    pub label: Option<Seq<char>>,
}

impl View for Footnote {
    type V = FootnoteV;

    open spec fn view(&self) -> FootnoteV {
        FootnoteV {
            n: self.n as nat,
            url: self.url@,
            label: match self.label {
                Some(l) => Some(l@),
                None => None,
            },
        }
    }
}

/// The rendered body plus its footnote table.
#[derive(Debug, Clone, PartialEq)]
pub struct Rendered {
    pub body: String,
    pub footnotes: Vec<Footnote>,
}

/// A rendering's value.
pub struct RenderedV {
    pub body: Seq<char>,
    pub footnotes: Seq<FootnoteV>,
}

impl View for Rendered {
    type V = RenderedV;

    open spec fn view(&self) -> RenderedV {
        RenderedV { body: self.body@, footnotes: self.footnotes@.map_values(|f: Footnote| f@) }
    }
}

/// The renderer's state between events.
pub struct MdSt {
    /// Finished output lines.
    pub lines: Seq<Seq<char>>,
    pub footnotes: Seq<FootnoteV>,
    /// Last footnote number handed out.
    pub n: nat,
    /// Inline text of the current leaf block.
    pub inline: Seq<char>,
    /// Resolved destination of the open link.
    pub link: Option<Seq<char>>,
    /// Resolved destination and alt text of the open image.
    pub image: Option<(Seq<char>, Seq<char>)>,
    /// Open lists, innermost last: `Some(next number)` when ordered.
    pub lists: Seq<Option<u64>>,
    /// Open items: first-line prefix, continuation prefix, whether the lead is out.
    pub items: Seq<(Seq<char>, Seq<char>, bool)>,
    /// Blockquote depth.
    pub quote: nat,
    /// Level of the open heading.
    pub heading: Option<u8>,
    pub in_code: bool,
    pub code: Seq<char>,
    /// Open table: finished rows and the row being filled.
    pub table: Option<(Seq<Seq<Seq<char>>>, Seq<Seq<char>>)>,
}

/// The state before the first event.
pub open spec fn md_init() -> MdSt {
    MdSt {
        lines: seq![],
        footnotes: seq![],
        n: 0,
        inline: seq![],
        link: None,
        image: None,
        lists: seq![],
        items: seq![],
        quote: 0,
        heading: None,
        in_code: false,
        code: seq![],
        table: None,
    }
}

/// Lists plus blockquotes currently open.
pub open spec fn container_depth(s: MdSt) -> nat {
    s.lists.len() + s.quote
}

/// One blank line between blocks: added when the last line is not blank.
pub open spec fn block_sep(s: MdSt) -> MdSt {
    if s.lines.len() > 0 && s.lines.last().len() > 0 {
        MdSt { lines: s.lines.push(seq![]), ..s }
    } else {
        s
    }
}

/// `"> "` repeated `q` times.
pub open spec fn quote_prefix(q: nat) -> Seq<char> {
    Seq::new(2 * q, |i: int| if i % 2 == 0 { '>' } else { ' ' })
}

/// First-line and continuation prefixes for text flushed now: those of the
/// innermost item, else the blockquote marks, else none.
pub open spec fn prefixes(s: MdSt) -> (Seq<char>, Seq<char>) {
    if s.items.len() > 0 {
        let it = s.items.last();
        (if it.2 { it.1 } else { it.0 }, it.1)
    } else if s.quote > 0 {
        (quote_prefix(s.quote), quote_prefix(s.quote))
    } else {
        (seq![], seq![])
    }
}

/// Flushes the inline text as wrapped lines in the current context; text that
/// is only white space is dropped.
pub open spec fn flush(s: MdSt) -> MdSt {
    let ws = words(s.inline);
    if ws.len() == 0 {
        MdSt { inline: seq![], ..s }
    } else {
        let (f, c) = prefixes(s);
        MdSt {
            lines: s.lines + wrap_lines(ws, WRAP as nat, f, c),
            inline: seq![],
            items: if s.items.len() > 0 {
                let it = s.items.last();
                s.items.update(s.items.len() - 1, (it.0, it.1, true))
            } else {
                s.items
            },
            ..s
        }
    }
}

/// An ASCII letter.
pub open spec fn is_alpha(c: char) -> bool {
    ('a' <= c && c <= 'z') || ('A' <= c && c <= 'Z')
}

/// A character that may follow the first letter of a URL scheme.
pub open spec fn scheme_char(c: char) -> bool {
    is_alpha(c) || is_digit(c) || c == '+' || c == '-' || c == '.'
}

/// Whether `u` starts with a URL scheme and its colon (`http:`, `ftp:`,
/// `mailto:`, ...): a letter, then letters, digits, `+`, `-` or `.`, then `:`.
pub open spec fn has_scheme(u: Seq<char>) -> bool {
    &&& u.len() > 0
    &&& is_alpha(u[0])
    &&& exists|k: int| 1 <= k < u.len() && #[trigger] u[k] == ':' && forall|j: int| 1 <= j < k ==> scheme_char(#[trigger] u[j])
}

/// Where a markdown URL points: absolute URLs (with a scheme, or `//`) as they
/// are (trimmed); site-absolute (`/x`) under the site root; anything else under
/// the post's own web location.
pub open spec fn resolved(url: Seq<char>, slug: Seq<char>) -> Seq<char> {
    let u = trim(url);
    if has_scheme(u) || has_prefix(u, "//"@) {
        u
    } else if u.len() > 0 && u[0] == '/' {
        "https://debene.dev/"@ + u.drop_first()
    } else {
        "https://debene.dev/posts/"@ + slug + "/"@ + u
    }
}

/// An item's marker: `"<n>. "` in an ordered list, a bullet otherwise.
pub open spec fn item_marker(ordered: Option<u64>) -> Seq<char> {
    match ordered {
        Some(num) => decimal(num as nat) + ". "@,
        None => "• "@,
    }
}

/// The ordered number after `num`.
pub open spec fn next_number(num: u64) -> u64 {
    if num == u64::MAX { 0 } else { (num + 1) as u64 }
}

/// Opens an item: indented two spaces per enclosing list level, with the
/// marker on its first line and blanks of the same width after it.
pub open spec fn start_item(s: MdSt) -> MdSt {
    let depth: nat = if s.lists.len() > 0 { (s.lists.len() - 1) as nat } else { 0 };
    let indent = repeat(' ', 2 * depth);
    let ordered = if s.lists.len() > 0 { s.lists.last() } else { None };
    let marker = item_marker(ordered);
    let lists = match ordered {
        Some(num) => s.lists.update(s.lists.len() - 1, Some(next_number(num))),
        None => s.lists,
    };
    MdSt {
        lists,
        items: s.items.push((indent + marker, indent + repeat(' ', marker.len()), false)),
        ..s
    }
}

/// The state after an element opens.
pub open spec fn md_start(s: MdSt, tag: TagV, slug: Seq<char>) -> MdSt {
    match tag {
        TagV::Paragraph => if container_depth(s) == 0 { block_sep(s) } else { s },
        TagV::Heading(level) => MdSt { heading: Some(level), ..block_sep(s) },
        TagV::CodeBlock => MdSt { in_code: true, code: seq![], ..flush(s) },
        TagV::List(start) => {
            let f = flush(s);
            let g = if container_depth(f) == 0 { block_sep(f) } else { f };
            MdSt { lists: g.lists.push(start), ..g }
        },
        TagV::Item => start_item(s),
        TagV::BlockQuote => {
            let f = flush(s);
            let g = if container_depth(f) == 0 { block_sep(f) } else { f };
            MdSt { quote: g.quote + 1, ..g }
        },
        TagV::Link(dest) => MdSt { link: Some(resolved(dest, slug)), ..s },
        TagV::Image(dest) => MdSt { image: Some((resolved(dest, slug), seq![])), ..s },
        TagV::Table => MdSt { table: Some((seq![], seq![])), ..block_sep(flush(s)) },
        TagV::TableCell => MdSt { inline: seq![], ..s },
        TagV::Other => s,
    }
}

/// The longest line's length.
pub open spec fn max_len(ls: Seq<Seq<char>>) -> nat
    decreases ls.len(),
{
    if ls.len() == 0 {
        0
    } else {
        let m = max_len(ls.drop_last());
        if ls.last().len() > m { ls.last().len() } else { m }
    }
}

/// Closes a heading: its text wrapped at 70 columns, underlined with `=` (levels
/// 1 and 2) or `-` as wide as its longest line. An empty heading leaves nothing.
pub open spec fn end_heading(s: MdSt) -> MdSt {
    let level = match s.heading { Some(l) => l, None => 3u8 };
    let block = wrap_lines(words(s.inline), WRAP as nat, seq![], seq![]);
    let t = MdSt { heading: None, inline: seq![], ..s };
    if block.len() == 0 {
        t
    } else {
        let width = max_len(block);
        let ruler = if level <= 2 { '=' } else { '-' };
        MdSt {
            lines: t.lines + block.push(repeat(ruler, if width < WRAP { width } else { WRAP as nat })),
            ..t
        }
    }
}

/// `s` split at every `c` (always at least one piece).
pub open spec fn split_on(s: Seq<char>, c: char) -> Seq<Seq<char>>
    decreases s.len(),
{
    if s.len() == 0 {
        seq![seq![]]
    } else {
        let prev = split_on(s.drop_last(), c);
        if s.last() == c {
            prev.push(seq![])
        } else {
            prev.update(prev.len() - 1, prev.last().push(s.last()))
        }
    }
}

/// The code block's lines: its text without one trailing newline, split at newlines.
pub open spec fn code_lines(code: Seq<char>) -> Seq<Seq<char>> {
    let body = if code.len() > 0 && code.last() == '\n' { code.drop_last() } else { code };
    split_on(body, '\n')
}

/// Closes a code block: its lines verbatim between two 64-dash rules.
pub open spec fn end_code(s: MdSt) -> MdSt {
    let t = block_sep(MdSt { in_code: false, ..s });
    MdSt {
        lines: t.lines.push(repeat('-', RULE as nat)) + code_lines(s.code) + seq![repeat('-', RULE as nat)],
        code: seq![],
        ..t
    }
}

/// The widest cell of column `i` over all rows.
pub open spec fn col_width(rows: Seq<Seq<Seq<char>>>, i: int) -> nat
    decreases rows.len(),
{
    if rows.len() == 0 {
        0
    } else {
        let m = col_width(rows.drop_last(), i);
        let r = rows.last();
        if 0 <= i < r.len() && r[i].len() > m { r[i].len() } else { m }
    }
}

/// The most cells in a row.
pub open spec fn col_count(rows: Seq<Seq<Seq<char>>>) -> nat
    decreases rows.len(),
{
    if rows.len() == 0 {
        0
    } else {
        let m = col_count(rows.drop_last());
        if rows.last().len() > m { rows.last().len() } else { m }
    }
}

/// The column widths of a table.
pub open spec fn col_widths(rows: Seq<Seq<Seq<char>>>) -> Seq<nat> {
    Seq::new(col_count(rows), |i: int| col_width(rows, i))
}

/// The sum of `ws`.
pub open spec fn sum(ws: Seq<nat>) -> nat
    decreases ws.len(),
{
    if ws.len() == 0 { 0 } else { sum(ws.drop_last()) + ws.last() }
}

/// `s` padded with spaces to `w` characters.
pub open spec fn pad(s: Seq<char>, w: nat) -> Seq<char> {
    if s.len() < w { s + repeat(' ', (w - s.len()) as nat) } else { s }
}

/// A table row over its first `k` columns: `|`, then ` cell |` per column, each
/// cell padded to its column's width (missing cells blank).
pub open spec fn row_text(row: Seq<Seq<char>>, widths: Seq<nat>, k: nat) -> Seq<char>
    decreases k,
{
    if k == 0 {
        "|"@
    } else {
        let i = k - 1;
        let cell = if i < row.len() { row[i as int] } else { seq![] };
        row_text(row, widths, (k - 1) as nat) + seq![' '] + pad(cell, widths[i as int]) + " |"@
    }
}

/// The header separator over the first `k` columns: `|`, then ` --- |` per column.
pub open spec fn rule_text(widths: Seq<nat>, k: nat) -> Seq<char>
    decreases k,
{
    if k == 0 {
        "|"@
    } else {
        rule_text(widths, (k - 1) as nat) + seq![' '] + repeat('-', widths[k - 1]) + " |"@
    }
}

/// The aligned table: each row, with the separator under the first.
pub open spec fn table_lines(rows: Seq<Seq<Seq<char>>>) -> Seq<Seq<char>> {
    let ws = col_widths(rows);
    Seq::new(rows.len() + 1, |i: int|
        if i == 0 {
            row_text(rows[0], ws, ws.len())
        } else if i == 1 {
            rule_text(ws, ws.len())
        } else {
            row_text(rows[i - 1], ws, ws.len())
        })
}

/// The monospace width of the aligned table.
pub open spec fn table_width(rows: Seq<Seq<Seq<char>>>) -> nat {
    sum(col_widths(rows)) + 3 * col_count(rows) + 1
}

/// Closes a table: aligned when it fits in 70 columns, else a "see web" line
/// and a footnote to the post's web page.
pub open spec fn end_table(s: MdSt, slug: Seq<char>) -> MdSt {
    let t = MdSt { table: None, ..s };
    match s.table {
        None => t,
        Some((rows, _)) => if rows.len() == 0 {
            t
        } else if table_width(rows) > WRAP {
            MdSt {
                lines: t.lines.push("[table — see web]"@),
                n: t.n + 1,
                footnotes: t.footnotes.push(FootnoteV {
                    n: t.n + 1,
                    url: "https://debene.dev/posts/"@ + slug + "/"@,
                    label: Some("table"@),
                }),
                ..t
            }
        } else {
            MdSt { lines: t.lines + table_lines(rows), ..t }
        },
    }
}

/// The state after an element closes.
pub open spec fn md_end(s: MdSt, tag: MdTagEnd, slug: Seq<char>) -> MdSt {
    match tag {
        MdTagEnd::Paragraph => flush(s),
        MdTagEnd::Heading => end_heading(s),
        MdTagEnd::CodeBlock => end_code(s),
        MdTagEnd::List => MdSt { lists: if s.lists.len() > 0 { s.lists.drop_last() } else { s.lists }, ..s },
        MdTagEnd::Item => {
            let f = flush(s);
            MdSt { items: if f.items.len() > 0 { f.items.drop_last() } else { f.items }, ..f }
        },
        MdTagEnd::BlockQuote => {
            let f = flush(s);
            MdSt { quote: if f.quote > 0 { (f.quote - 1) as nat } else { 0 }, ..f }
        },
        MdTagEnd::Link => match s.link {
            Some(url) => MdSt {
                link: None,
                n: s.n + 1,
                inline: s.inline + "["@ + decimal(s.n + 1) + "]"@,
                footnotes: s.footnotes.push(FootnoteV { n: s.n + 1, url, label: None }),
                ..s
            },
            None => s,
        },
        MdTagEnd::Image => match s.image {
            Some((url, alt)) => MdSt {
                image: None,
                n: s.n + 1,
                inline: s.inline + "[img: "@ + trim(alt) + "]"@,
                footnotes: s.footnotes.push(
                    FootnoteV { n: s.n + 1, url, label: Some("img: "@ + trim(alt)) },
                ),
                ..s
            },
            None => s,
        },
        MdTagEnd::TableCell => MdSt {
            inline: seq![],
            table: match s.table {
                Some((rows, cur)) => Some((rows, cur.push(trim(s.inline)))),
                None => None,
            },
            ..s
        },
        MdTagEnd::TableRow | MdTagEnd::TableHead => MdSt {
            table: match s.table {
                Some((rows, cur)) => Some((rows.push(cur), seq![])),
                None => None,
            },
            ..s
        },
        MdTagEnd::Table => end_table(s, slug),
        MdTagEnd::Other => s,
    }
}

/// The state after one event.
pub open spec fn md_event(s: MdSt, ev: EventV, slug: Seq<char>) -> MdSt {
    match ev {
        EventV::Start(tag) => md_start(s, tag, slug),
        EventV::End(tag) => md_end(s, tag, slug),
        EventV::Text(t) => if s.in_code {
            MdSt { code: s.code + t, ..s }
        } else {
            match s.image {
                Some((url, alt)) => MdSt { image: Some((url, alt + t)), ..s },
                None => MdSt { inline: s.inline + t, ..s },
            }
        },
        EventV::Code(t) => match s.image {
            Some((url, alt)) => MdSt { image: Some((url, alt + t)), ..s },
            None => MdSt { inline: s.inline + t, ..s },
        },
        EventV::SoftBreak | EventV::HardBreak => if s.in_code {
            s
        } else {
            MdSt { inline: s.inline.push(' '), ..s }
        },
        EventV::Rule => {
            let f = block_sep(flush(s));
            MdSt { lines: f.lines.push("* * *"@), ..f }
        },
        EventV::Other => s,
    }
}

/// The state after all of `evs`.
pub open spec fn md_run(evs: Seq<EventV>, slug: Seq<char>) -> MdSt
    decreases evs.len(),
{
    if evs.len() == 0 {
        md_init()
    } else {
        md_event(md_run(evs.drop_last(), slug), evs.last(), slug)
    }
}

/// `ls` without its leading blank lines.
pub open spec fn drop_leading_blank(ls: Seq<Seq<char>>) -> Seq<Seq<char>>
    decreases ls.len(),
{
    if ls.len() > 0 && ls[0].len() == 0 { drop_leading_blank(ls.drop_first()) } else { ls }
}

/// `ls` without its trailing blank lines.
pub open spec fn drop_trailing_blank(ls: Seq<Seq<char>>) -> Seq<Seq<char>>
    decreases ls.len(),
{
    if ls.len() > 0 && ls.last().len() == 0 { drop_trailing_blank(ls.drop_last()) } else { ls }
}

/// `ls` joined with newlines.
pub open spec fn join_lines(ls: Seq<Seq<char>>) -> Seq<char>
    decreases ls.len(),
{
    if ls.len() == 0 {
        seq![]
    } else if ls.len() == 1 {
        ls[0]
    } else {
        join_lines(ls.drop_last()) + seq!['\n'] + ls.last()
    }
}

/// The rendering of the events `evs` for the post `slug`: the final inline text
/// flushed, leading and trailing blank lines dropped, lines joined by newlines.
pub open spec fn rendering(evs: Seq<EventV>, slug: Seq<char>) -> RenderedV {
    let s = flush(md_run(evs, slug));
    RenderedV {
        body: join_lines(drop_trailing_blank(drop_leading_blank(s.lines))),
        footnotes: s.footnotes,
    }
}

/// The lines a vector of character vectors holds.
pub open spec fn lines_view(v: Seq<Vec<char>>) -> Seq<Seq<char>> {
    v.map_values(|l: Vec<char>| l@)
}

/// The items a vector of item frames holds.
pub open spec fn items_view(v: Seq<(Vec<char>, Vec<char>, bool)>) -> Seq<(Seq<char>, Seq<char>, bool)> {
    v.map_values(|it: (Vec<char>, Vec<char>, bool)| (it.0@, it.1@, it.2))
}

/// The rows a vector of rows holds.
pub open spec fn rows_view(v: Seq<Vec<Vec<char>>>) -> Seq<Seq<Seq<char>>> {
    v.map_values(|r: Vec<Vec<char>>| lines_view(r@))
}

/// Whether `c` is an ASCII letter.
fn is_alpha_exec(c: char) -> (r: bool)
    ensures
        r == is_alpha(c),
{
    ('a' <= c && c <= 'z') || ('A' <= c && c <= 'Z')
}

/// Whether `u` starts with a URL scheme and its colon (see [`has_scheme`]).
fn starts_with_scheme(u: &Vec<char>) -> (r: bool)
    ensures
        r == has_scheme(u@),
{
    if u.len() == 0 || !is_alpha_exec(u[0]) {
        return false;
    }
    let mut i: usize = 1;
    while i < u.len() && (is_alpha_exec(u[i]) || ('0' <= u[i] && u[i] <= '9') || u[i] == '+' || u[i] == '-' || u[i] == '.')
        invariant
            1 <= i <= u@.len(),
            forall|j: int| 1 <= j < i ==> scheme_char(#[trigger] u@[j]),
        decreases u@.len() - i,
    {
        i = i + 1;
    }
    let found = i < u.len() && u[i] == ':';
    proof {
        if found {
            assert(u@[i as int] == ':');
        } else {
            assert forall|k: int| 1 <= k < u@.len() && #[trigger] u@[k] == ':' implies !(forall|j: int| 1 <= j < k ==> scheme_char(#[trigger] u@[j])) by {
                if k > i {
                    assert(i < u@.len());
                    assert(!scheme_char(u@[i as int]));
                } else if k < i {
                    assert(scheme_char(u@[k]));
                }
            }
        }
    }
    found
}

/// Resolves a markdown URL against the post `slug` (see [`resolved`]).
pub fn resolve_url(url: &[char], slug: &[char]) -> (r: Vec<char>)
    ensures
        r@ == resolved(url@, slug@),
{
    let u = trim_chars(url);
    if starts_with_scheme(&u) || starts_with_str(&u, "//") {
        u
    } else if u.len() > 0 && u[0] == '/' {
        let mut r = chars_of("https://debene.dev/");
        let rest = slice_chars(&u, 1, u.len());
        assert(rest@ =~= u@.drop_first());
        push_all(&mut r, &rest);
        r
    } else {
        let mut r = chars_of("https://debene.dev/posts/");
        push_all(&mut r, slug);
        push_str(&mut r, "/");
        push_all(&mut r, &u);
        r
    }
}

/// A copy of `v`.
fn copy_chars(v: &Vec<char>) -> (r: Vec<char>)
    ensures
        r@ == v@,
{
    let r = slice_chars(v, 0, v.len());
    assert(v@.subrange(0, v@.len() as int) =~= v@);
    r
}

/// The renderer's executable state.
struct Md {
    slug: Vec<char>,
    lines: Vec<Vec<char>>,
    footnotes: Vec<Footnote>,
    n: usize,
    inline: Vec<char>,
    link: Option<Vec<char>>,
    image: Option<(Vec<char>, Vec<char>)>,
    lists: Vec<Option<u64>>,
    items: Vec<(Vec<char>, Vec<char>, bool)>,
    quote: usize,
    heading: Option<u8>,
    in_code: bool,
    code: Vec<char>,
    table: Option<(Vec<Vec<Vec<char>>>, Vec<Vec<char>>)>,
}

impl Md {
    spec fn st(&self) -> MdSt {
        MdSt {
            lines: lines_view(self.lines@),
            footnotes: self.footnotes@.map_values(|f: Footnote| f@),
            n: self.n as nat,
            inline: self.inline@,
            link: match self.link {
                Some(u) => Some(u@),
                None => None,
            },
            image: match self.image {
                Some((u, a)) => Some((u@, a@)),
                None => None,
            },
            lists: self.lists@,
            items: items_view(self.items@),
            quote: self.quote as nat,
            heading: self.heading,
            in_code: self.in_code,
            code: self.code@,
            table: match self.table {
                Some((rows, cur)) => Some((rows_view(rows@), lines_view(cur@))),
                None => None,
            },
        }
    }

    fn new(slug: Vec<char>) -> (r: Md)
        ensures
            r.st() == md_init(),
            r.slug@ == slug@,
    {
        let r = Md {
            slug,
            lines: Vec::new(),
            footnotes: Vec::new(),
            n: 0,
            inline: Vec::new(),
            link: None,
            image: None,
            lists: Vec::new(),
            items: Vec::new(),
            quote: 0,
            heading: None,
            in_code: false,
            code: Vec::new(),
            table: None,
        };
        assert(r.st().lines =~= seq![]);
        assert(r.st().footnotes =~= seq![]);
        assert(r.st().items =~= seq![]);
        r
    }

    fn push_line(&mut self, l: Vec<char>)
        ensures
            final(self).st() == (MdSt { lines: old(self).st().lines.push(l@), ..old(self).st() }),
            final(self).slug == old(self).slug,
    {
        let ghost before = self.st();
        self.lines.push(l);
        assert(lines_view(self.lines@) =~= before.lines.push(l@));
    }

    fn block_sep(&mut self)
        ensures
            final(self).st() == block_sep(old(self).st()),
            final(self).slug == old(self).slug,
    {
        let k = self.lines.len();
        if k > 0 && self.lines[k - 1].len() > 0 {
            let e: Vec<char> = Vec::new();
            assert(e@ =~= seq![]);
            self.push_line(e);
        }
    }

    fn prefixes(&self) -> (r: (Vec<char>, Vec<char>))
        ensures
            (r.0@, r.1@) == prefixes(self.st()),
    {
        let k = self.items.len();
        if k > 0 {
            let it = &self.items[k - 1];
            assert(items_view(self.items@).last() == (it.0@, it.1@, it.2));
            let f = if it.2 { copy_chars(&it.1) } else { copy_chars(&it.0) };
            (f, copy_chars(&it.1))
        } else if self.quote > 0 {
            let mut p: Vec<char> = Vec::new();
            let mut i: usize = 0;
            while i < self.quote
                invariant
                    i <= self.quote,
                    p@ == quote_prefix(i as nat),
                decreases self.quote - i,
            {
                p.push('>');
                p.push(' ');
                i = i + 1;
                assert(p@ =~= quote_prefix(i as nat));
            }
            let q = copy_chars(&p);
            (p, q)
        } else {
            (Vec::new(), Vec::new())
        }
    }

    fn flush_inline(&mut self)
        ensures
            final(self).st() == flush(old(self).st()),
            final(self).slug == old(self).slug,
    {
        let ghost s0 = self.st();
        let ws = split_words(&self.inline);
        if ws.len() == 0 {
            assert(ws@.map_values(|w: Vec<char>| w@).len() == 0);
            self.inline.clear();
            assert(self.st() =~= flush(s0));
            return;
        }
        assert(ws@.map_values(|w: Vec<char>| w@).len() > 0);
        let (first, cont) = self.prefixes();
        let mut text: Vec<char> = Vec::new();
        std::mem::swap(&mut text, &mut self.inline);
        wrap_into(&text, WRAP, &first, &cont, &mut self.lines);
        let k = self.items.len();
        if k > 0 {
            let ghost iv = items_view(self.items@);
            let (a, b, _) = self.items.pop().unwrap();
            assert(iv.last() == (a@, b@, old(self).items@[k - 1].2));
            self.items.push((a, b, true));
            assert(items_view(self.items@) =~= iv.update(iv.len() - 1, (iv.last().0, iv.last().1, true)));
        }
        assert(self.st() =~= flush(s0));
    }
}

/// `split_on` always yields at least one piece.
proof fn lemma_split_on_nonempty(s: Seq<char>, c: char)
    ensures
        split_on(s, c).len() >= 1,
    decreases s.len(),
{
    if s.len() > 0 {
        lemma_split_on_nonempty(s.drop_last(), c);
    }
}

impl Md {
    /// Appends all of `ls` as lines.
    fn push_lines(&mut self, ls: &Vec<Vec<char>>)
        ensures
            final(self).st() == (MdSt { lines: old(self).st().lines + lines_view(ls@), ..old(self).st() }),
            final(self).slug == old(self).slug,
    {
        let ghost s0 = self.st();
        let mut i: usize = 0;
        while i < ls.len()
            invariant
                i <= ls@.len(),
                self.st() == (MdSt { lines: s0.lines + lines_view(ls@).take(i as int), ..s0 }),
                self.slug == old(self).slug,
            decreases ls@.len() - i,
        {
            let l = copy_chars(&ls[i]);
            self.push_line(l);
            i = i + 1;
            assert(s0.lines + lines_view(ls@).take(i as int) =~= (s0.lines + lines_view(ls@).take(
                i - 1,
            )).push(l@));
        }
        assert(lines_view(ls@).take(i as int) =~= lines_view(ls@));
    }

    fn start_item(&mut self)
        ensures
            final(self).st() == start_item(old(self).st()),
            final(self).slug == old(self).slug,
    {
        let ghost s0 = self.st();
        let k = self.lists.len();
        let mut indent: Vec<char> = Vec::new();
        if k > 0 {
            let mut i: usize = 0;
            while i < k - 1
                invariant
                    k > 0,
                    i <= k - 1,
                    indent@ == repeat(' ', 2 * i as nat),
                decreases k - 1 - i,
            {
                indent.push(' ');
                indent.push(' ');
                i = i + 1;
                assert(indent@ =~= repeat(' ', 2 * i as nat));
            }
        } else {
            assert(indent@ =~= repeat(' ', 0));
        }
        let ordered = if k > 0 { self.lists[k - 1] } else { None };
        let marker = match ordered {
            Some(num) => {
                let mut m = decimal_of(num);
                push_str(&mut m, ". ");
                let next = if num == u64::MAX { 0 } else { num + 1 };
                self.lists.set(k - 1, Some(next));
                m
            },
            None => chars_of("• "),
        };
        let mut first = copy_chars(&indent);
        push_all(&mut first, &marker);
        let mut cont = copy_chars(&indent);
        let blanks = repeat_char(' ', marker.len());
        push_all(&mut cont, &blanks);
        let ghost iv = items_view(self.items@);
        self.items.push((first, cont, false));
        assert(items_view(self.items@) =~= iv.push((first@, cont@, false)));
        assert(self.st() =~= start_item(s0));
    }

    fn end_heading(&mut self)
        ensures
            final(self).st() == end_heading(old(self).st()),
            final(self).slug == old(self).slug,
    {
        let ghost s0 = self.st();
        let level = match self.heading {
            Some(l) => l,
            None => 3,
        };
        self.heading = None;
        let mut text: Vec<char> = Vec::new();
        std::mem::swap(&mut text, &mut self.inline);
        let mut block: Vec<Vec<char>> = Vec::new();
        let e: Vec<char> = Vec::new();
        assert(e@ =~= seq![]);
        wrap_into(&text, WRAP, &e, &e, &mut block);
        assert(lines_view(block@) =~= wrap_lines(words(s0.inline), WRAP as nat, seq![], seq![]));
        if block.len() == 0 {
            assert(self.st() =~= end_heading(s0));
            return;
        }
        let mut width: usize = 0;
        let mut i: usize = 0;
        while i < block.len()
            invariant
                i <= block@.len(),
                width == max_len(lines_view(block@).take(i as int)),
            decreases block@.len() - i,
        {
            assert(lines_view(block@).take(i as int + 1).drop_last() =~= lines_view(block@).take(
                i as int,
            ));
            if block[i].len() > width {
                width = block[i].len();
            }
            i = i + 1;
        }
        assert(lines_view(block@).take(i as int) =~= lines_view(block@));
        let ruler = if level <= 2 { '=' } else { '-' };
        self.push_lines(&block);
        let r = repeat_char(ruler, if width < WRAP { width } else { WRAP });
        self.push_line(r);
        assert(self.st() =~= end_heading(s0));
    }

    fn end_code(&mut self)
        ensures
            final(self).st() == end_code(old(self).st()),
            final(self).slug == old(self).slug,
    {
        let ghost s0 = self.st();
        self.in_code = false;
        self.block_sep();
        let r1 = repeat_char('-', RULE);
        self.push_line(r1);
        let mut code: Vec<char> = Vec::new();
        std::mem::swap(&mut code, &mut self.code);
        let ghost s1 = self.st();
        let k = code.len();
        let body_len = if k > 0 && code[k - 1] == '\n' { k - 1 } else { k };
        let ghost body = code@.take(body_len as int);
        assert(body =~= (if code@.len() > 0 && code@.last() == '\n' { code@.drop_last() } else { code@ }));
        let mut cur: Vec<char> = Vec::new();
        let mut i: usize = 0;
        proof { lemma_split_on_nonempty(body.take(0), '\n'); }
        assert(body.take(0) =~= seq![]);
        while i < body_len
            invariant
                i <= body_len <= code@.len(),
                body == code@.take(body_len as int),
                split_on(body.take(i as int), '\n').len() >= 1,
                self.st() == (MdSt {
                    lines: s1.lines + split_on(body.take(i as int), '\n').drop_last(),
                    ..s1
                }),
                cur@ == split_on(body.take(i as int), '\n').last(),
                self.slug == old(self).slug,
            decreases body_len - i,
        {
            let ghost sp = split_on(body.take(i as int), '\n');
            assert(body.take(i as int + 1).drop_last() =~= body.take(i as int));
            assert(body.take(i as int + 1).last() == code@[i as int]);
            if code[i] == '\n' {
                let mut l: Vec<char> = Vec::new();
                std::mem::swap(&mut l, &mut cur);
                self.push_line(l);
                assert(split_on(body.take(i as int + 1), '\n') == sp.push(seq![]));
                assert(sp.push(seq![]).drop_last() =~= sp);
                assert(sp =~= sp.drop_last().push(l@));
                assert(cur@ =~= seq![]);
            } else {
                cur.push(code[i]);
                let ghost nsp = sp.update(sp.len() - 1, sp.last().push(code@[i as int]));
                assert(split_on(body.take(i as int + 1), '\n') == nsp);
                assert(nsp.drop_last() =~= sp.drop_last());
            }
            i = i + 1;
        }
        assert(body.take(i as int) =~= body);
        let ghost sp = split_on(body, '\n');
        self.push_line(cur);
        assert(sp.drop_last().push(sp.last()) =~= sp);
        let r2 = repeat_char('-', RULE);
        self.push_line(r2);
        assert(code@ == s0.code);
        assert(code_lines(s0.code) == sp);
        assert(self.st().lines =~= s1.lines + sp + seq![repeat('-', RULE as nat)]);
        assert(self.st() =~= end_code(s0));
    }

    fn start(&mut self, tag: &MdTag)
        requires
            old(self).quote < usize::MAX,
        ensures
            final(self).st() == md_start(old(self).st(), tag@, old(self).slug@),
            final(self).slug == old(self).slug,
            final(self).n == old(self).n,
            final(self).quote <= old(self).quote + 1,
    {
        let ghost s0 = self.st();
        match tag {
            MdTag::Paragraph => {
                if self.lists.len() == 0 && self.quote == 0 {
                    self.block_sep();
                }
            },
            MdTag::Heading(level) => {
                self.block_sep();
                self.heading = Some(*level);
            },
            MdTag::CodeBlock => {
                self.flush_inline();
                self.in_code = true;
                self.code.clear();
            },
            MdTag::List(start) => {
                self.flush_inline();
                if self.lists.len() == 0 && self.quote == 0 {
                    self.block_sep();
                }
                self.lists.push(*start);
            },
            MdTag::Item => {
                self.start_item();
            },
            MdTag::BlockQuote => {
                self.flush_inline();
                if self.lists.len() == 0 && self.quote == 0 {
                    self.block_sep();
                }
                self.quote = self.quote + 1;
            },
            MdTag::Link(dest) => {
                let d = chars_of(dest.as_str());
                self.link = Some(resolve_url(&d, &self.slug));
            },
            MdTag::Image(dest) => {
                let d = chars_of(dest.as_str());
                self.image = Some((resolve_url(&d, &self.slug), Vec::new()));
                assert(self.st().image == Some((resolved(dest@, old(self).slug@), Seq::<char>::empty())));
            },
            MdTag::Table => {
                self.flush_inline();
                self.block_sep();
                self.table = Some((Vec::new(), Vec::new()));
                assert(self.st().table == Some((Seq::<Seq<Seq<char>>>::empty(), Seq::<Seq<char>>::empty())));
            },
            MdTag::TableCell => {
                self.inline.clear();
            },
            MdTag::Other => {},
        }
        assert(self.st() =~= md_start(s0, tag@, old(self).slug@));
    }
}

/// No row has more cells than the column count.
proof fn lemma_col_count_bounds(rows: Seq<Seq<Seq<char>>>, r: int)
    requires
        0 <= r < rows.len(),
    ensures
        rows[r].len() <= col_count(rows),
    decreases rows.len(),
{
    if r < rows.len() - 1 {
        lemma_col_count_bounds(rows.drop_last(), r);
    }
}

/// The widths as numbers.
pub open spec fn widths_view(ws: Seq<usize>) -> Seq<nat> {
    ws.map_values(|w: usize| w as nat)
}

/// `cell` padded to `w` characters.
fn pad_into(out: &mut Vec<char>, cell: &Vec<char>, w: usize)
    ensures
        final(out)@ == old(out)@ + pad(cell@, w as nat),
{
    push_all(out, cell);
    if cell.len() < w {
        let blanks = repeat_char(' ', w - cell.len());
        push_all(out, &blanks);
    } else {
        assert(old(out)@ + cell@ =~= old(out)@ + pad(cell@, w as nat));
    }
}

/// One aligned table row.
fn row_line(row: &Vec<Vec<char>>, widths: &Vec<usize>) -> (r: Vec<char>)
    ensures
        r@ == row_text(lines_view(row@), widths_view(widths@), widths@.len() as nat),
{
    let mut r = chars_of("|");
    let mut k: usize = 0;
    let e: Vec<char> = Vec::new();
    while k < widths.len()
        invariant
            k <= widths@.len(),
            e@ == Seq::<char>::empty(),
            r@ == row_text(lines_view(row@), widths_view(widths@), k as nat),
        decreases widths@.len() - k,
    {
        r.push(' ');
        if k < row.len() {
            pad_into(&mut r, &row[k], widths[k]);
        } else {
            pad_into(&mut r, &e, widths[k]);
        }
        push_str(&mut r, " |");
        k = k + 1;
    }
    r
}

/// The header separator line.
fn rule_line(widths: &Vec<usize>) -> (r: Vec<char>)
    ensures
        r@ == rule_text(widths_view(widths@), widths@.len() as nat),
{
    let mut r = chars_of("|");
    let mut k: usize = 0;
    while k < widths.len()
        invariant
            k <= widths@.len(),
            r@ == rule_text(widths_view(widths@), k as nat),
        decreases widths@.len() - k,
    {
        r.push(' ');
        let dashes = repeat_char('-', widths[k]);
        push_all(&mut r, &dashes);
        push_str(&mut r, " |");
        k = k + 1;
    }
    r
}

/// The column count and column widths of a table.
fn measure(rows: &Vec<Vec<Vec<char>>>) -> (r: Vec<usize>)
    ensures
        widths_view(r@) == col_widths(rows_view(rows@)),
{
    let ghost rv = rows_view(rows@);
    let mut cols: usize = 0;
    let mut r: usize = 0;
    while r < rows.len()
        invariant
            r <= rows@.len(),
            rv == rows_view(rows@),
            cols == col_count(rv.take(r as int)),
        decreases rows@.len() - r,
    {
        assert(rv.take(r as int + 1).drop_last() =~= rv.take(r as int));
        assert(rv.take(r as int + 1).last() == lines_view(rows@[r as int]@));
        if rows[r].len() > cols {
            cols = rows[r].len();
        }
        r = r + 1;
    }
    assert(rv.take(r as int) =~= rv);
    let mut widths: Vec<usize> = Vec::new();
    let mut j: usize = 0;
    while j < cols
        invariant
            j <= cols,
            widths@.len() == j,
            forall|i: int| 0 <= i < j ==> widths@[i] == 0,
        decreases cols - j,
    {
        widths.push(0);
        j = j + 1;
    }
    let mut r: usize = 0;
    while r < rows.len()
        invariant
            r <= rows@.len(),
            rv == rows_view(rows@),
            cols == col_count(rv),
            widths@.len() == cols,
            forall|i: int| 0 <= i < cols ==> #[trigger] widths@[i] == col_width(rv.take(r as int), i),
        decreases rows@.len() - r,
    {
        let row = &rows[r];
        proof { lemma_col_count_bounds(rv, r as int); }
        assert(rv.take(r as int + 1).drop_last() =~= rv.take(r as int));
        assert(rv.take(r as int + 1).last() == lines_view(row@));
        let mut i: usize = 0;
        while i < row.len()
            invariant
                i <= row@.len() <= cols,
                r < rows@.len(),
                row == &rows@[r as int],
                rv == rows_view(rows@),
                rv.take(r as int + 1).drop_last() == rv.take(r as int),
                rv.take(r as int + 1).last() == lines_view(row@),
                widths@.len() == cols,
                forall|j: int| 0 <= j < cols ==> #[trigger] widths@[j] == (if j < i {
                    col_width(rv.take(r as int + 1), j)
                } else {
                    col_width(rv.take(r as int), j)
                }),
            decreases row@.len() - i,
        {
            if row[i].len() > widths[i] {
                widths.set(i, row[i].len());
            }
            i = i + 1;
        }
        assert forall|j: int| 0 <= j < cols implies #[trigger] widths@[j] == col_width(
            rv.take(r as int + 1),
            j,
        ) by {
            if j >= row@.len() {
                assert(col_width(rv.take(r as int + 1), j) == col_width(rv.take(r as int), j));
            }
        }
        r = r + 1;
    }
    assert(rv.take(r as int) =~= rv);
    assert(widths_view(widths@) =~= col_widths(rv));
    widths
}

/// The table's width, capped at `usize::MAX` (exact whenever it fits).
fn table_total(widths: &Vec<usize>) -> (t: usize)
    ensures
        t == (if sum(widths_view(widths@)) + 3 * widths@.len() + 1 <= usize::MAX {
            sum(widths_view(widths@)) + 3 * widths@.len() + 1
        } else {
            usize::MAX as nat
        }),
{
    let ghost wv = widths_view(widths@);
    let mut t: usize = 1;
    let mut i: usize = 0;
    while i < widths.len()
        invariant
            i <= widths@.len(),
            wv == widths_view(widths@),
            t == (if sum(wv.take(i as int)) + 3 * i + 1 <= usize::MAX {
                sum(wv.take(i as int)) + 3 * i + 1
            } else {
                usize::MAX as int
            }),
        decreases widths@.len() - i,
    {
        assert(wv.take(i as int + 1).drop_last() =~= wv.take(i as int));
        t = t.saturating_add(widths[i]).saturating_add(3);
        i = i + 1;
    }
    assert(wv.take(i as int) =~= wv);
    t
}

impl Md {
    fn end_table(&mut self)
        requires
            old(self).n < usize::MAX,
        ensures
            final(self).st() == end_table(old(self).st(), old(self).slug@),
            final(self).slug == old(self).slug,
            final(self).n <= old(self).n + 1,
            final(self).quote == old(self).quote,
    {
        let ghost s0 = self.st();
        let t = self.table.take();
        match t {
            None => {
                assert(self.st() =~= end_table(s0, self.slug@));
            },
            Some((rows, _cur)) => {
                let ghost rv = rows_view(rows@);
                if rows.len() == 0 {
                    assert(self.st() =~= end_table(s0, self.slug@));
                    return;
                }
                let widths = measure(&rows);
                let total = table_total(&widths);
                assert(widths@.len() == col_count(rv));
                if total > WRAP {
                    self.n = self.n + 1;
                    let line = chars_of("[table — see web]");
                    self.push_line(line);
                    let mut url = chars_of("https://debene.dev/posts/");
                    push_all(&mut url, &self.slug);
                    push_str(&mut url, "/");
                    let label = string_of(&chars_of("table"));
                    let ghost fv = self.st().footnotes;
                    let f = Footnote { n: self.n, url: string_of(&url), label: Some(label) };
                    self.footnotes.push(f);
                    assert(self.footnotes@.map_values(|f: Footnote| f@) =~= fv.push(f@));
                    assert(self.st() =~= end_table(s0, self.slug@));
                } else {
                    let ghost s1 = self.st();
                    let ghost tl = table_lines(rv);
                    let mut i: usize = 0;
                    while i < rows.len()
                        invariant
                            i <= rows@.len(),
                            rows@.len() > 0,
                            rv == rows_view(rows@),
                            widths_view(widths@) == col_widths(rv),
                            widths@.len() == col_count(rv),
                            tl == table_lines(rv),
                            self.st() == (MdSt {
                                lines: s1.lines + tl.take(if i == 0 { 0 } else { i + 1 }),
                                ..s1
                            }),
                            self.slug == old(self).slug,
                        decreases rows@.len() - i,
                    {
                        let l = row_line(&rows[i], &widths);
                        self.push_line(l);
                        if i == 0 {
                            let sep = rule_line(&widths);
                            self.push_line(sep);
                            assert(s1.lines + tl.take(2) =~= s1.lines.push(l@).push(sep@));
                        } else {
                            assert(s1.lines + tl.take(i + 2) =~= (s1.lines + tl.take(i + 1)).push(
                                l@,
                            ));
                        }
                        i = i + 1;
                    }
                    assert(tl.take(i + 1) =~= tl);
                    assert(self.st() =~= end_table(s0, self.slug@));
                }
            },
        }
    }
}

impl Md {
    fn push_footnote(&mut self, f: Footnote)
        ensures
            final(self).st() == (MdSt { footnotes: old(self).st().footnotes.push(f@), ..old(self).st() }),
            final(self).slug == old(self).slug,
            final(self).n == old(self).n,
            final(self).quote == old(self).quote,
    {
        let ghost fv = self.st().footnotes;
        self.footnotes.push(f);
        assert(self.footnotes@.map_values(|f: Footnote| f@) =~= fv.push(f@));
    }

    fn end(&mut self, tag: MdTagEnd)
        requires
            old(self).n < usize::MAX,
        ensures
            final(self).st() == md_end(old(self).st(), tag, old(self).slug@),
            final(self).slug == old(self).slug,
            final(self).n <= old(self).n + 1,
            final(self).quote <= old(self).quote,
    {
        let ghost s0 = self.st();
        match tag {
            MdTagEnd::Paragraph => self.flush_inline(),
            MdTagEnd::Heading => self.end_heading(),
            MdTagEnd::CodeBlock => self.end_code(),
            MdTagEnd::List => {
                self.lists.pop();
                assert(self.st() =~= md_end(s0, tag, self.slug@));
            },
            MdTagEnd::Item => {
                self.flush_inline();
                let ghost iv = items_view(self.items@);
                self.items.pop();
                assert(items_view(self.items@) =~= (if iv.len() > 0 { iv.drop_last() } else { iv }));
                assert(self.st() =~= md_end(s0, tag, self.slug@));
            },
            MdTagEnd::BlockQuote => {
                self.flush_inline();
                self.quote = self.quote.saturating_sub(1);
                assert(self.st() =~= md_end(s0, tag, self.slug@));
            },
            MdTagEnd::Link => {
                if let Some(url) = self.link.take() {
                    self.n = self.n + 1;
                    let n = self.n;
                    push_str(&mut self.inline, "[");
                    let digits = decimal_of(n as u64);
                    push_all(&mut self.inline, &digits);
                    push_str(&mut self.inline, "]");
                    self.push_footnote(Footnote { n, url: string_of(&url), label: None });
                }
                assert(self.st() =~= md_end(s0, tag, self.slug@));
            },
            MdTagEnd::Image => {
                if let Some((url, alt)) = self.image.take() {
                    self.n = self.n + 1;
                    let n = self.n;
                    let alt = trim_chars(&alt);
                    push_str(&mut self.inline, "[img: ");
                    push_all(&mut self.inline, &alt);
                    push_str(&mut self.inline, "]");
                    let mut label = chars_of("img: ");
                    push_all(&mut label, &alt);
                    self.push_footnote(
                        Footnote { n, url: string_of(&url), label: Some(string_of(&label)) },
                    );
                }
                assert(self.st() =~= md_end(s0, tag, self.slug@));
            },
            MdTagEnd::TableCell => {
                let mut text: Vec<char> = Vec::new();
                std::mem::swap(&mut text, &mut self.inline);
                let cell = trim_chars(&text);
                match self.table.take() {
                    Some((rows, mut cur)) => {
                        let ghost cv = lines_view(cur@);
                        cur.push(cell);
                        assert(lines_view(cur@) =~= cv.push(cell@));
                        self.table = Some((rows, cur));
                    },
                    None => {},
                }
                assert(self.st() =~= md_end(s0, tag, self.slug@));
            },
            MdTagEnd::TableRow | MdTagEnd::TableHead => {
                match self.table.take() {
                    Some((mut rows, cur)) => {
                        let ghost rv = rows_view(rows@);
                        let ghost cv = lines_view(cur@);
                        rows.push(cur);
                        assert(rows_view(rows@) =~= rv.push(cv));
                        let e: Vec<Vec<char>> = Vec::new();
                        assert(lines_view(e@) =~= seq![]);
                        self.table = Some((rows, e));
                    },
                    None => {},
                }
                assert(self.st() =~= md_end(s0, tag, self.slug@));
            },
            MdTagEnd::Table => self.end_table(),
            MdTagEnd::Other => {},
        }
    }

    fn event(&mut self, ev: &MdEvent)
        requires
            old(self).n < usize::MAX,
            old(self).quote < usize::MAX,
        ensures
            final(self).st() == md_event(old(self).st(), ev@, old(self).slug@),
            final(self).slug == old(self).slug,
            final(self).n <= old(self).n + 1,
            final(self).quote <= old(self).quote + 1,
    {
        let ghost s0 = self.st();
        match ev {
            MdEvent::Start(tag) => self.start(tag),
            MdEvent::End(tag) => self.end(*tag),
            MdEvent::Text(t) => {
                if self.in_code {
                    push_str(&mut self.code, t.as_str());
                } else {
                    match self.image.take() {
                        Some((url, mut alt)) => {
                            push_str(&mut alt, t.as_str());
                            self.image = Some((url, alt));
                        },
                        None => push_str(&mut self.inline, t.as_str()),
                    }
                }
                assert(self.st() =~= md_event(s0, ev@, self.slug@));
            },
            MdEvent::Code(t) => {
                match self.image.take() {
                    Some((url, mut alt)) => {
                        push_str(&mut alt, t.as_str());
                        self.image = Some((url, alt));
                    },
                    None => push_str(&mut self.inline, t.as_str()),
                }
                assert(self.st() =~= md_event(s0, ev@, self.slug@));
            },
            MdEvent::SoftBreak | MdEvent::HardBreak => {
                if !self.in_code {
                    self.inline.push(' ');
                }
                assert(self.st() =~= md_event(s0, ev@, self.slug@));
            },
            MdEvent::Rule => {
                self.flush_inline();
                self.block_sep();
                let l = chars_of("* * *");
                self.push_line(l);
            },
            MdEvent::Other => {},
        }
    }

    fn finish(self) -> (r: Rendered)
        ensures
            r@ == (RenderedV {
                body: join_lines(drop_trailing_blank(drop_leading_blank(flush(self.st()).lines))),
                footnotes: flush(self.st()).footnotes,
            }),
    {
        let mut md = self;
        md.flush_inline();
        let ghost ls = lines_view(md.lines@);
        let mut lo: usize = 0;
        assert(ls.subrange(0, ls.len() as int) =~= ls);
        while lo < md.lines.len() && md.lines[lo].len() == 0
            invariant
                lo <= md.lines@.len(),
                ls == lines_view(md.lines@),
                drop_leading_blank(ls) == drop_leading_blank(ls.subrange(lo as int, ls.len() as int)),
            decreases md.lines@.len() - lo,
        {
            assert(ls.subrange(lo as int + 1, ls.len() as int) =~= ls.subrange(lo as int, ls.len() as int).drop_first());
            lo = lo + 1;
        }
        let ghost mid = ls.subrange(lo as int, ls.len() as int);
        assert(drop_leading_blank(ls) == mid);
        let mut hi: usize = md.lines.len();
        while hi > lo && md.lines[hi - 1].len() == 0
            invariant
                lo <= hi <= md.lines@.len(),
                ls == lines_view(md.lines@),
                mid == ls.subrange(lo as int, ls.len() as int),
                drop_trailing_blank(mid) == drop_trailing_blank(ls.subrange(lo as int, hi as int)),
            decreases hi - lo,
        {
            assert(ls.subrange(lo as int, hi - 1) =~= ls.subrange(lo as int, hi as int).drop_last());
            hi = hi - 1;
        }
        let ghost kept = ls.subrange(lo as int, hi as int);
        assert(drop_trailing_blank(mid) == kept);
        let mut body: Vec<char> = Vec::new();
        let mut i: usize = lo;
        while i < hi
            invariant
                lo <= i <= hi <= md.lines@.len(),
                ls == lines_view(md.lines@),
                kept == ls.subrange(lo as int, hi as int),
                body@ == join_lines(ls.subrange(lo as int, i as int)),
            decreases hi - i,
        {
            assert(ls.subrange(lo as int, i + 1).drop_last() =~= ls.subrange(lo as int, i as int));
            if i > lo {
                body.push('\n');
            } else {
                assert(ls.subrange(lo as int, i + 1) =~= seq![ls[i as int]]);
            }
            push_all(&mut body, &md.lines[i]);
            i = i + 1;
        }
        let r = Rendered { body: string_of(&body), footnotes: md.footnotes };
        r
    }
}

/// Renders a markdown event stream for the post `slug` (see [`rendering`]).
pub fn render_events(events: &Vec<MdEvent>, slug: &str) -> (r: Rendered)
    ensures
        r@ == rendering(events_view(events@), slug@),
        forall|i: int| 0 <= i < r.footnotes@.len() ==> #[trigger] r.footnotes@[i].n == i + 1,
{
    proof {
        lemma_footnotes_numbered(events_view(events@), slug@);
    }
    let ghost evs = events_view(events@);
    let mut md = Md::new(chars_of(slug));
    let mut i: usize = 0;
    while i < events.len()
        invariant
            i <= events@.len(),
            evs == events_view(events@),
            md.st() == md_run(evs.take(i as int), slug@),
            md.slug@ == slug@,
            md.n <= i,
            md.quote <= i,
        decreases events@.len() - i,
    {
        assert(evs.take(i as int + 1).drop_last() =~= evs.take(i as int));
        md.event(&events[i]);
        i = i + 1;
    }
    assert(evs.take(i as int) =~= evs);
    let r = md.finish();
    assert forall|i: int| 0 <= i < r.footnotes@.len() implies #[trigger] r.footnotes@[i].n == i + 1 by {
        assert(r@.footnotes[i] == r.footnotes@[i]@);
        assert(r@.footnotes[i].n == i + 1);
    }
    r
}

/// Renders markdown to a gopher-text body plus footnote table. `slug` resolves
/// relative link and image URLs to their canonical `https://debene.dev/...` form.
pub fn render(markdown: &str, slug: &str) -> (r: Rendered)
    ensures
        r@ == rendering(markdown_events(markdown@), slug@),
        forall|i: int| 0 <= i < r.footnotes@.len() ==> #[trigger] r.footnotes@[i].n == i + 1,
{
    let events = parse_markdown(markdown);
    render_events(&events, slug)
}

/// Footnotes numbered `1..=n` in order, `n` the last number handed out.
pub open spec fn numbered(s: MdSt) -> bool {
    &&& s.footnotes.len() == s.n
    &&& forall|i: int| 0 <= i < s.footnotes.len() ==> #[trigger] s.footnotes[i].n == i + 1
}

proof fn lemma_flush_keeps_notes(s: MdSt)
    ensures
        flush(s).footnotes == s.footnotes,
        flush(s).n == s.n,
{
}

proof fn lemma_event_numbered(s: MdSt, ev: EventV, slug: Seq<char>)
    requires
        numbered(s),
    ensures
        numbered(md_event(s, ev, slug)),
{
    lemma_flush_keeps_notes(s);
    match ev {
        EventV::Start(tag) => {
            lemma_flush_keeps_notes(s);
        },
        EventV::End(tag) => {
            let t = md_end(s, tag, slug);
            match tag {
                MdTagEnd::Heading => {},
                MdTagEnd::CodeBlock => {},
                MdTagEnd::Item => {},
                MdTagEnd::BlockQuote => {},
                MdTagEnd::Link => {
                    if s.link is Some {
                        assert forall|i: int| 0 <= i < t.footnotes.len() implies #[trigger] t.footnotes[i].n == i + 1 by {
                            if i < s.footnotes.len() {
                                assert(t.footnotes[i] == s.footnotes[i]);
                            }
                        }
                    }
                },
                MdTagEnd::Image => {
                    if s.image is Some {
                        assert forall|i: int| 0 <= i < t.footnotes.len() implies #[trigger] t.footnotes[i].n == i + 1 by {
                            if i < s.footnotes.len() {
                                assert(t.footnotes[i] == s.footnotes[i]);
                            }
                        }
                    }
                },
                MdTagEnd::Table => {
                    assert forall|i: int| 0 <= i < t.footnotes.len() implies #[trigger] t.footnotes[i].n == i + 1 by {
                        if i < s.footnotes.len() {
                            assert(t.footnotes[i] == s.footnotes[i]);
                        }
                    }
                },
                _ => {},
            }
        },
        _ => {},
    }
}

proof fn lemma_run_numbered(evs: Seq<EventV>, slug: Seq<char>)
    ensures
        numbered(md_run(evs, slug)),
    decreases evs.len(),
{
    if evs.len() > 0 {
        lemma_run_numbered(evs.drop_last(), slug);
        lemma_event_numbered(md_run(evs.drop_last(), slug), evs.last(), slug);
    }
}

/// Law: links, images and table fallbacks share one footnote sequence,
/// numbered 1, 2, 3, ... in the order they occur.
pub proof fn lemma_footnotes_numbered(evs: Seq<EventV>, slug: Seq<char>)
    ensures
        forall|i: int| 0 <= i < rendering(evs, slug).footnotes.len() ==> #[trigger] rendering(evs, slug).footnotes[i].n == i + 1,
{
    lemma_run_numbered(evs, slug);
    lemma_flush_keeps_notes(md_run(evs, slug));
}

proof fn lemma_split_rejoin(s: Seq<char>)
    ensures
        join_lines(split_on(s, '\n')) == s,
    decreases s.len(),
{
    if s.len() > 0 {
        let prev = split_on(s.drop_last(), '\n');
        lemma_split_rejoin(s.drop_last());
        lemma_split_on_nonempty(s.drop_last(), '\n');
        let cur = split_on(s, '\n');
        if s.last() == '\n' {
            assert(cur.drop_last() =~= prev);
            assert(join_lines(cur) =~= s);
        } else {
            assert(cur.len() == prev.len());
            if prev.len() == 1 {
                assert(join_lines(prev) == prev[0]);
                assert(cur[0] == prev[0].push(s.last()));
                assert(join_lines(cur) == cur[0]);
                assert(s.drop_last().push(s.last()) =~= s);
            } else {
                assert(cur.drop_last() =~= prev.drop_last());
                assert(join_lines(cur) =~= join_lines(prev.drop_last()) + seq!['\n'] + prev.last().push(s.last()));
                assert(join_lines(prev) == join_lines(prev.drop_last()) + seq!['\n'] + prev.last());
                assert(join_lines(cur) =~= join_lines(prev).push(s.last()));
                assert(s.drop_last().push(s.last()) =~= s);
            }
        }
    }
}

/// Law: a code block is emitted verbatim: its lines, joined by newlines, give
/// back its text (less one trailing newline).
pub proof fn lemma_code_verbatim(code: Seq<char>)
    ensures
        join_lines(code_lines(code)) == (if code.len() > 0 && code.last() == '\n' { code.drop_last() } else { code }),
{
    let body = if code.len() > 0 && code.last() == '\n' { code.drop_last() } else { code };
    lemma_split_rejoin(body);
}

/// The width of the first `k` columns: `|`, then ` cell |` per column.
pub open spec fn cols_width(widths: Seq<nat>, k: nat) -> nat
    decreases k,
{
    if k == 0 { 1 } else { cols_width(widths, (k - 1) as nat) + widths[k - 1] + 3 }
}

proof fn lemma_row_text_len(row: Seq<Seq<char>>, widths: Seq<nat>, k: nat)
    requires
        k <= widths.len(),
        forall|i: int| 0 <= i < row.len() && i < k ==> #[trigger] row[i].len() <= widths[i],
    ensures
        row_text(row, widths, k).len() == cols_width(widths, k),
        rule_text(widths, k).len() == cols_width(widths, k),
    decreases k,
{
    if k > 0 {
        lemma_row_text_len(row, widths, (k - 1) as nat);
        reveal_strlit(" |");
        reveal_strlit("|");
    } else {
        reveal_strlit("|");
    }
}

proof fn lemma_col_width_bound(rows: Seq<Seq<Seq<char>>>, r: int, i: int)
    requires
        0 <= r < rows.len(),
        0 <= i < rows[r].len(),
    ensures
        rows[r][i].len() <= col_width(rows, i),
    decreases rows.len(),
{
    if r < rows.len() - 1 {
        lemma_col_width_bound(rows.drop_last(), r, i);
    }
}

proof fn lemma_cols_width_sum(widths: Seq<nat>, k: nat)
    requires
        k <= widths.len(),
    ensures
        cols_width(widths, k) == sum(widths.take(k as int)) + 3 * k + 1,
    decreases k,
{
    if k > 0 {
        lemma_cols_width_sum(widths, (k - 1) as nat);
        assert(widths.take(k as int).drop_last() =~= widths.take(k - 1));
    }
}

/// Law: an aligned table's lines all have the same width, the table's width,
/// so the columns line up; a table is only aligned when that width is at most 70.
pub proof fn lemma_table_aligned(rows: Seq<Seq<Seq<char>>>)
    requires
        rows.len() > 0,
    ensures
        forall|i: int| 0 <= i < table_lines(rows).len() ==> #[trigger] table_lines(rows)[i].len() == table_width(rows),
{
    let ws = col_widths(rows);
    lemma_cols_width_sum(ws, ws.len());
    assert(ws.take(ws.len() as int) =~= ws);
    assert forall|i: int| 0 <= i < table_lines(rows).len() implies #[trigger] table_lines(rows)[i].len() == table_width(rows) by {
        let r = if i == 0 { 0 } else if i == 1 { 0 } else { i - 1 };
        assert forall|c: int| 0 <= c < rows[r].len() && c < ws.len() implies #[trigger] rows[r][c].len() <= ws[c] by {
            lemma_col_width_bound(rows, r, c);
        }
        lemma_row_text_len(rows[r], ws, ws.len());
    }
}

/// A character that list and quote markers are made of: space, `>`, `•`,
/// `.` and digits.
pub open spec fn marker_char(c: char) -> bool {
    c == ' ' || c == '>' || c == '•' || c == '.' || is_digit(c)
}

/// Whether `p` is made of marker characters only.
pub open spec fn all_marker(p: Seq<char>) -> bool {
    forall|i: int| 0 <= i < p.len() ==> marker_char(#[trigger] p[i])
}

/// The length of the run of marker characters that `l` starts with.
pub open spec fn lead_len(l: Seq<char>) -> nat
    decreases l.len(),
{
    if l.len() > 0 && marker_char(l[0]) { 1 + lead_len(l.drop_first()) } else { 0 }
}

/// A body line keeps to the column limit: at most 70 characters, or list and
/// quote markers followed by one single word (a bare URL, say) too long to break.
pub open spec fn within_columns(l: Seq<char>) -> bool {
    l.len() <= WRAP || no_ws(l.skip(lead_len(l) as int))
}

/// The prefixes of every open item are marker characters.
pub open spec fn markers_ok(s: MdSt) -> bool {
    forall|i: int| 0 <= i < s.items.len() ==> all_marker(#[trigger] s.items[i].0) && all_marker(s.items[i].1)
}

/// `t` extends the lines of `s`, and every line it adds keeps to the columns.
pub open spec fn adds_lines_within(s: MdSt, t: MdSt) -> bool {
    &&& s.lines.len() <= t.lines.len()
    &&& t.lines.take(s.lines.len() as int) == s.lines
    &&& forall|i: int| s.lines.len() <= i < t.lines.len() ==> within_columns(#[trigger] t.lines[i])
}

/// `t` extends the lines of `s`.
pub open spec fn extends_lines(s: MdSt, t: MdSt) -> bool {
    &&& s.lines.len() <= t.lines.len()
    &&& t.lines.take(s.lines.len() as int) == s.lines
}

proof fn lemma_lead_covers(l: Seq<char>, p: Seq<char>)
    requires
        has_prefix(l, p),
        all_marker(p),
    ensures
        lead_len(l) >= p.len(),
        lead_len(l) <= l.len(),
    decreases l.len(),
{
    if p.len() > 0 {
        assert(l[0] == p[0]);
        assert(has_prefix(l.drop_first(), p.drop_first())) by {
            assert(l.drop_first().take(p.len() - 1) =~= p.drop_first());
        }
        lemma_lead_covers(l.drop_first(), p.drop_first());
    } else {
        lemma_lead_bound(l);
    }
}

proof fn lemma_lead_bound(l: Seq<char>)
    ensures
        lead_len(l) <= l.len(),
    decreases l.len(),
{
    if l.len() > 0 {
        lemma_lead_bound(l.drop_first());
    }
}

proof fn lemma_fits_within(l: Seq<char>, p: Seq<char>)
    requires
        fits_or_one_word(l, p, WRAP as nat),
        all_marker(p),
    ensures
        within_columns(l),
{
    if l.len() > WRAP {
        lemma_lead_covers(l, p);
        let k = lead_len(l) as int;
        assert forall|j: int| 0 <= j < l.skip(k).len() implies !crate::text::is_ws(#[trigger] l.skip(k)[j]) by {
            assert(l.skip(k)[j] == l.skip(p.len() as int)[j + k - p.len()]);
        }
    }
}

proof fn lemma_short_within(l: Seq<char>)
    requires
        l.len() <= WRAP,
    ensures
        within_columns(l),
{
}

proof fn lemma_prefixes_marker(s: MdSt)
    requires
        markers_ok(s),
    ensures
        all_marker(prefixes(s).0),
        all_marker(prefixes(s).1),
{
    if s.items.len() > 0 {
        assert(all_marker(s.items[s.items.len() - 1].0));
    }
}

proof fn lemma_flush_lines(s: MdSt)
    requires
        markers_ok(s),
    ensures
        adds_lines_within(s, flush(s)),
        markers_ok(flush(s)),
        flush(s).items.len() == s.items.len(),
{
    let f = flush(s);
    let ws = words(s.inline);
    lemma_prefixes_marker(s);
    if ws.len() > 0 {
        let (a, c) = prefixes(s);
        lemma_text_words(s.inline);
        lemma_wrap_fits(ws, WRAP as nat, a, c);
        let added = wrap_lines(ws, WRAP as nat, a, c);
        assert(f.lines.take(s.lines.len() as int) =~= s.lines);
        assert forall|i: int| s.lines.len() <= i < f.lines.len() implies within_columns(#[trigger] f.lines[i]) by {
            let k = i - s.lines.len();
            assert(f.lines[i] == added[k]);
            lemma_fits_within(added[k], if k == 0 { a } else { c });
        }
        assert forall|i: int| 0 <= i < f.items.len() implies all_marker(#[trigger] f.items[i].0) && all_marker(f.items[i].1) by {
            if i == s.items.len() - 1 {
                assert(all_marker(s.items[i].0));
            } else {
                assert(f.items[i] == s.items[i]);
            }
        }
    } else {
        assert(f.lines.take(s.lines.len() as int) =~= s.lines);
    }
}

proof fn lemma_block_sep_lines(s: MdSt)
    ensures
        adds_lines_within(s, block_sep(s)),
        block_sep(s).items == s.items,
{
    assert(block_sep(s).lines.take(s.lines.len() as int) =~= s.lines);
}

proof fn lemma_adds_trans(a: MdSt, b: MdSt, c: MdSt)
    requires
        adds_lines_within(a, b),
        adds_lines_within(b, c),
    ensures
        adds_lines_within(a, c),
{
    assert(c.lines.take(a.lines.len() as int) =~= c.lines.take(b.lines.len() as int).take(a.lines.len() as int));
    assert forall|i: int| a.lines.len() <= i < c.lines.len() implies within_columns(#[trigger] c.lines[i]) by {
        if i < b.lines.len() {
            assert(c.lines[i] == c.lines.take(b.lines.len() as int)[i]);
        }
    }
}

proof fn lemma_push_within(s: MdSt, l: Seq<char>)
    requires
        within_columns(l),
    ensures
        adds_lines_within(s, MdSt { lines: s.lines.push(l), ..s }),
{
    assert(s.lines.push(l).take(s.lines.len() as int) =~= s.lines);
}

proof fn lemma_item_markers(s: MdSt)
    requires
        markers_ok(s),
    ensures
        markers_ok(start_item(s)),
        start_item(s).lines == s.lines,
{
    let depth: nat = if s.lists.len() > 0 { (s.lists.len() - 1) as nat } else { 0 };
    let indent = repeat(' ', 2 * depth);
    let ordered = if s.lists.len() > 0 { s.lists.last() } else { None };
    let marker = item_marker(ordered);
    reveal_strlit(". ");
    reveal_strlit("• ");
    match ordered {
        Some(num) => {
            lemma_decimal_digits(num as nat);
            let d = decimal(num as nat);
            assert forall|i: int| 0 <= i < marker.len() implies marker_char(#[trigger] marker[i]) by {
                if i < d.len() {
                    assert(marker[i] == d[i]);
                    assert(is_digit(d[i]));
                }
            }
        },
        None => {},
    }
    let t = start_item(s);
    assert(all_marker(indent + marker)) by {
        assert forall|i: int| 0 <= i < (indent + marker).len() implies marker_char(#[trigger] (indent + marker)[i]) by {
            if i >= indent.len() {
                assert((indent + marker)[i] == marker[i - indent.len()]);
            }
        }
    }
    assert(all_marker(indent + repeat(' ', marker.len()))) by {
        assert forall|i: int| 0 <= i < (indent + repeat(' ', marker.len())).len() implies marker_char(#[trigger] (indent + repeat(' ', marker.len()))[i]) by {
        }
    }
    assert forall|i: int| 0 <= i < t.items.len() implies all_marker(#[trigger] t.items[i].0) && all_marker(t.items[i].1) by {
        if i < s.items.len() {
            assert(t.items[i] == s.items[i]);
        }
    }
}


proof fn lemma_adds_same(s: MdSt, t: MdSt)
    requires
        t.lines == s.lines,
    ensures
        adds_lines_within(s, t),
{
    assert(t.lines.take(s.lines.len() as int) =~= s.lines);
}

proof fn lemma_append_within(s: MdSt, t: MdSt, added: Seq<Seq<char>>)
    requires
        t.lines == s.lines + added,
        forall|i: int| 0 <= i < added.len() ==> within_columns(#[trigger] added[i]),
    ensures
        adds_lines_within(s, t),
{
    assert(t.lines.take(s.lines.len() as int) =~= s.lines);
    assert forall|i: int| s.lines.len() <= i < t.lines.len() implies within_columns(#[trigger] t.lines[i]) by {
        assert(t.lines[i] == added[i - s.lines.len()]);
    }
}

proof fn lemma_sep_after_flush(s: MdSt)
    requires
        markers_ok(s),
    ensures
        adds_lines_within(s, block_sep(flush(s))),
        markers_ok(block_sep(flush(s))),
{
    lemma_flush_lines(s);
    lemma_block_sep_lines(flush(s));
    lemma_adds_trans(s, flush(s), block_sep(flush(s)));
}

proof fn lemma_heading_lines(s: MdSt)
    ensures
        adds_lines_within(s, end_heading(s)),
        end_heading(s).items == s.items,
{
    let block = wrap_lines(words(s.inline), WRAP as nat, seq![], seq![]);
    let t = end_heading(s);
    if block.len() > 0 {
        let width = max_len(block);
        let ruler = if s.heading matches Some(l) && l <= 2 { '=' } else { '-' };
        let rl = repeat(ruler, if width < WRAP { width } else { WRAP as nat });
        lemma_text_words(s.inline);
        lemma_wrap_fits(words(s.inline), WRAP as nat, seq![], seq![]);
        let added = block.push(rl);
        assert forall|i: int| 0 <= i < added.len() implies within_columns(#[trigger] added[i]) by {
            if i < block.len() {
                assert(added[i] == block[i]);
                lemma_fits_within(block[i], seq![]);
            } else {
                lemma_short_within(rl);
            }
        }
        lemma_append_within(s, t, added);
    } else {
        lemma_adds_same(s, t);
    }
}

proof fn lemma_table_end_lines(s: MdSt, slug: Seq<char>)
    ensures
        adds_lines_within(s, end_table(s, slug)),
        end_table(s, slug).items == s.items,
{
    let t = end_table(s, slug);
    match s.table {
        None => lemma_adds_same(s, t),
        Some((rows, _)) => {
            if rows.len() == 0 {
                lemma_adds_same(s, t);
            } else if table_width(rows) > WRAP {
                reveal_strlit("[table — see web]");
                lemma_push_within(s, "[table — see web]"@);
            } else {
                lemma_table_aligned(rows);
                let added = table_lines(rows);
                assert forall|i: int| 0 <= i < added.len() implies within_columns(#[trigger] added[i]) by {
                    lemma_short_within(added[i]);
                }
                lemma_append_within(s, t, added);
            }
        },
    }
}

proof fn lemma_markers_same(s: MdSt, t: MdSt)
    requires
        markers_ok(s),
        t.items == s.items,
    ensures
        markers_ok(t),
{
    assert forall|i: int| 0 <= i < t.items.len() implies all_marker(#[trigger] t.items[i].0) && all_marker(t.items[i].1) by {
        assert(t.items[i] == s.items[i]);
        assert(all_marker(s.items[i].0));
    }
}

proof fn lemma_start_columns(s: MdSt, tag: TagV, slug: Seq<char>)
    requires
        markers_ok(s),
    ensures
        adds_lines_within(s, md_start(s, tag, slug)),
        markers_ok(md_start(s, tag, slug)),
{
    let t = md_start(s, tag, slug);
    match tag {
        TagV::Paragraph => {
            lemma_block_sep_lines(s);
            if container_depth(s) != 0 {
                lemma_adds_same(s, t);
            }
            lemma_markers_same(s, t);
        },
        TagV::Heading(_) => {
            lemma_block_sep_lines(s);
            lemma_markers_same(s, t);
        },
        TagV::CodeBlock => {
            lemma_flush_lines(s);
            lemma_markers_same(flush(s), t);
        },
        TagV::List(_) | TagV::BlockQuote => {
            let f = flush(s);
            lemma_flush_lines(s);
            lemma_block_sep_lines(f);
            if container_depth(f) == 0 {
                lemma_adds_trans(s, f, block_sep(f));
            }
            lemma_markers_same(f, t);
        },
        TagV::Item => {
            lemma_item_markers(s);
            lemma_adds_same(s, t);
        },
        TagV::Table => {
            lemma_sep_after_flush(s);
            lemma_markers_same(block_sep(flush(s)), t);
        },
        _ => {
            lemma_adds_same(s, t);
            lemma_markers_same(s, t);
        },
    }
}

proof fn lemma_end_columns(s: MdSt, tag: MdTagEnd, slug: Seq<char>)
    requires
        markers_ok(s),
    ensures
        markers_ok(md_end(s, tag, slug)),
        tag != MdTagEnd::CodeBlock ==> adds_lines_within(s, md_end(s, tag, slug)),
{
    let t = md_end(s, tag, slug);
    match tag {
        MdTagEnd::Paragraph => lemma_flush_lines(s),
        MdTagEnd::Heading => {
            lemma_heading_lines(s);
            lemma_markers_same(s, t);
        },
        MdTagEnd::CodeBlock => {
            lemma_markers_same(s, t);
        },
        MdTagEnd::Item => {
            let f = flush(s);
            lemma_flush_lines(s);
            assert forall|i: int| 0 <= i < t.items.len() implies all_marker(#[trigger] t.items[i].0) && all_marker(t.items[i].1) by {
                assert(t.items[i] == f.items[i]);
            }
        },
        MdTagEnd::BlockQuote => {
            lemma_flush_lines(s);
            lemma_markers_same(flush(s), t);
        },
        MdTagEnd::Table => {
            lemma_table_end_lines(s, slug);
            lemma_markers_same(s, t);
        },
        _ => {
            lemma_adds_same(s, t);
            lemma_markers_same(s, t);
        },
    }
}

proof fn lemma_event_columns(s: MdSt, ev: EventV, slug: Seq<char>)
    requires
        markers_ok(s),
    ensures
        markers_ok(md_event(s, ev, slug)),
        ev != EventV::End(MdTagEnd::CodeBlock) ==> adds_lines_within(s, md_event(s, ev, slug)),
{
    let t = md_event(s, ev, slug);
    match ev {
        EventV::Start(tag) => {
            lemma_start_columns(s, tag, slug);
        },
        EventV::End(tag) => lemma_end_columns(s, tag, slug),
        EventV::Rule => {
            let f = block_sep(flush(s));
            lemma_sep_after_flush(s);
            reveal_strlit("* * *");
            lemma_push_within(f, "* * *"@);
            lemma_adds_trans(s, f, t);
            lemma_markers_same(f, t);
        },
        _ => {
            lemma_markers_same(s, t);
            lemma_adds_same(s, t);
        },
    }
}

proof fn lemma_run_markers(evs: Seq<EventV>, slug: Seq<char>)
    ensures
        markers_ok(md_run(evs, slug)),
    decreases evs.len(),
{
    if evs.len() > 0 {
        lemma_run_markers(evs.drop_last(), slug);
        lemma_event_columns(md_run(evs.drop_last(), slug), evs.last(), slug);
    }
}

/// Law: the body keeps to 70 columns. Every line that an event other than the
/// end of a code block adds, and every line of the final flush, is at most 70
/// characters long, or is list and quote markers followed by one word too long
/// to break (a bare URL, say). Only code is emitted verbatim, whatever its width.
pub proof fn lemma_body_columns(evs: Seq<EventV>, slug: Seq<char>, k: int)
    requires
        0 <= k < evs.len(),
        evs[k] != EventV::End(MdTagEnd::CodeBlock),
    ensures
        adds_lines_within(md_run(evs.take(k), slug), md_run(evs.take(k + 1), slug)),
        adds_lines_within(md_run(evs, slug), flush(md_run(evs, slug))),
{
    let pre = evs.take(k);
    let cur = evs.take(k + 1);
    assert(cur.drop_last() =~= pre);
    assert(cur.last() == evs[k]);
    lemma_run_markers(pre, slug);
    lemma_event_columns(md_run(pre, slug), evs[k], slug);
    lemma_run_markers(evs, slug);
    lemma_flush_lines(md_run(evs, slug));
}


/// Splitting at `c` around one `c` gives the pieces of both sides.
pub proof fn lemma_split_concat(a: Seq<char>, b: Seq<char>, c: char)
    ensures
        split_on(a + seq![c] + b, c) == split_on(a, c) + split_on(b, c),
    decreases b.len(),
{
    let x = a + seq![c] + b;
    if b.len() == 0 {
        assert(x.drop_last() =~= a);
        assert(split_on(x, c) =~= split_on(a, c) + split_on(b, c));
    } else {
        lemma_split_concat(a, b.drop_last(), c);
        assert(x.drop_last() =~= a + seq![c] + b.drop_last());
        lemma_split_on_nonempty(b.drop_last(), c);
        lemma_split_on_nonempty(a, c);
        let pa = split_on(a, c);
        let pb = split_on(b.drop_last(), c);
        if b.last() == c {
            assert(split_on(x, c) =~= pa + split_on(b, c));
        } else {
            assert((pa + pb).last() == pb.last());
            assert(split_on(x, c) =~= pa + split_on(b, c));
        }
    }
}

/// A text without `c` splits into itself alone.
pub proof fn lemma_split_no_sep(s: Seq<char>, c: char)
    requires
        forall|i: int| 0 <= i < s.len() ==> s[i] != c,
    ensures
        split_on(s, c) == seq![s],
    decreases s.len(),
{
    if s.len() > 0 {
        lemma_split_no_sep(s.drop_last(), c);
        assert(s.drop_last().push(s.last()) =~= s);
        assert(split_on(s, c) =~= seq![s]);
    } else {
        assert(s =~= seq![]);
    }
}

proof fn lemma_split_short(s: Seq<char>, c: char)
    ensures
        forall|j: int| 0 <= j < split_on(s, c).len() ==> (#[trigger] split_on(s, c)[j]).len() <= s.len(),
    decreases s.len(),
{
    if s.len() > 0 {
        lemma_split_short(s.drop_last(), c);
        lemma_split_on_nonempty(s.drop_last(), c);
        let prev = split_on(s.drop_last(), c);
        assert forall|j: int| 0 <= j < split_on(s, c).len() implies (#[trigger] split_on(s, c)[j]).len() <= s.len() by {
            if j < prev.len() && !(s.last() != c && j == prev.len() - 1) {
                assert(split_on(s, c)[j] == prev[j]);
            }
        }
    }
}

proof fn lemma_lead_markers(l: Seq<char>, i: int)
    requires
        0 <= i < lead_len(l),
    ensures
        marker_char(l[i]),
    decreases l.len(),
{
    lemma_lead_bound(l);
    assert(l.len() > 0 && marker_char(l[0]));
    if i > 0 {
        assert(lead_len(l.drop_first()) == lead_len(l) - 1);
        lemma_lead_markers(l.drop_first(), i - 1);
        assert(l.drop_first()[i - 1] == l[i]);
    }
}

/// Each newline-separated piece of a line that keeps to the columns keeps to them too.
proof fn lemma_split_within(l: Seq<char>)
    requires
        within_columns(l),
    ensures
        forall|j: int| 0 <= j < split_on(l, '\n').len() ==> within_columns(#[trigger] split_on(l, '\n')[j]),
{
    if l.len() <= WRAP {
        lemma_split_short(l, '\n');
        assert forall|j: int| 0 <= j < split_on(l, '\n').len() implies within_columns(#[trigger] split_on(l, '\n')[j]) by {
            assert(split_on(l, '\n')[j].len() <= l.len());
        }
    } else {
        let k = lead_len(l) as int;
        lemma_lead_bound(l);
        assert forall|i: int| 0 <= i < l.len() implies l[i] != '\n' by {
            if i < k {
                lemma_lead_markers(l, i);
            } else {
                assert(l.skip(k)[i - k] == l[i]);
                assert(!crate::text::is_ws(l.skip(k)[i - k]));
            }
        }
        lemma_split_no_sep(l, '\n');
    }
}


/// Which of the lines that `ev` adds to `s` are lines of a code block: those
/// between the two rules when a code block closes, none otherwise.
pub open spec fn event_marks(s: MdSt, ev: EventV, slug: Seq<char>) -> Seq<bool> {
    if ev == EventV::End(MdTagEnd::CodeBlock) {
        let t = block_sep(MdSt { in_code: false, ..s });
        Seq::new((t.lines.len() - s.lines.len()) as nat, |i: int| false) + seq![false]
            + Seq::new(code_lines(s.code).len(), |i: int| true) + seq![false]
    } else {
        Seq::new((md_event(s, ev, slug).lines.len() - s.lines.len()) as nat, |i: int| false)
    }
}

/// For each line after all of `evs`, whether it is a line of a code block.
pub open spec fn run_marks(evs: Seq<EventV>, slug: Seq<char>) -> Seq<bool>
    decreases evs.len(),
{
    if evs.len() == 0 {
        seq![]
    } else {
        run_marks(evs.drop_last(), slug) + event_marks(md_run(evs.drop_last(), slug), evs.last(), slug)
    }
}

/// Every line is marked, and every line not marked as code keeps to the columns.
pub open spec fn marks_fit(ls: Seq<Seq<char>>, ms: Seq<bool>) -> bool {
    &&& ms.len() == ls.len()
    &&& forall|i: int| 0 <= i < ls.len() && !ms[i] ==> within_columns(#[trigger] ls[i])
}

proof fn lemma_marks_extend(s: MdSt, t: MdSt, ms: Seq<bool>)
    requires
        marks_fit(s.lines, ms),
        adds_lines_within(s, t),
    ensures
        marks_fit(t.lines, ms + Seq::new((t.lines.len() - s.lines.len()) as nat, |i: int| false)),
{
    let m2 = ms + Seq::new((t.lines.len() - s.lines.len()) as nat, |i: int| false);
    assert forall|i: int| 0 <= i < t.lines.len() && !m2[i] implies within_columns(#[trigger] t.lines[i]) by {
        if i < s.lines.len() {
            assert(t.lines[i] == t.lines.take(s.lines.len() as int)[i]);
            assert(m2[i] == ms[i]);
        }
    }
}

proof fn lemma_event_marks(s: MdSt, ev: EventV, slug: Seq<char>, ms: Seq<bool>)
    requires
        markers_ok(s),
        marks_fit(s.lines, ms),
    ensures
        marks_fit(md_event(s, ev, slug).lines, ms + event_marks(s, ev, slug)),
{
    lemma_event_columns(s, ev, slug);
    let t = md_event(s, ev, slug);
    if ev == EventV::End(MdTagEnd::CodeBlock) {
        let s2 = MdSt { in_code: false, ..s };
        let tb = block_sep(s2);
        lemma_block_sep_lines(s2);
        let rule = repeat('-', RULE as nat);
        assert(t == end_code(s));
        assert(t.lines == tb.lines.push(rule) + code_lines(s.code) + seq![rule]);
        let mb = ms + Seq::new((tb.lines.len() - s.lines.len()) as nat, |i: int| false);
        lemma_marks_extend(s2, tb, ms);
        let cl = code_lines(s.code);
        let m2 = ms + event_marks(s, ev, slug);
        assert(m2 =~= mb + seq![false] + Seq::new(cl.len(), |i: int| true) + seq![false]);
        assert forall|i: int| 0 <= i < t.lines.len() && !m2[i] implies within_columns(#[trigger] t.lines[i]) by {
            let n = tb.lines.len() as int;
            if i < n {
                assert(t.lines[i] == tb.lines[i]);
                assert(m2[i] == mb[i]);
            } else if i == n || i == t.lines.len() - 1 {
                assert(t.lines[i] == rule);
            } else {
                assert(m2[i] == true);
            }
        }
    } else {
        lemma_marks_extend(s, t, ms);
    }
}

proof fn lemma_run_marks(evs: Seq<EventV>, slug: Seq<char>)
    ensures
        marks_fit(md_run(evs, slug).lines, run_marks(evs, slug)),
    decreases evs.len(),
{
    if evs.len() > 0 {
        lemma_run_marks(evs.drop_last(), slug);
        lemma_run_markers(evs.drop_last(), slug);
        lemma_event_marks(md_run(evs.drop_last(), slug), evs.last(), slug, run_marks(evs.drop_last(), slug));
    }
}

/// How many blank lines `ls` starts with.
pub open spec fn lead_blanks(ls: Seq<Seq<char>>) -> nat
    decreases ls.len(),
{
    if ls.len() > 0 && ls[0].len() == 0 { 1 + lead_blanks(ls.drop_first()) } else { 0 }
}

/// How many blank lines `ls` ends with.
pub open spec fn trail_blanks(ls: Seq<Seq<char>>) -> nat
    decreases ls.len(),
{
    if ls.len() > 0 && ls.last().len() == 0 { 1 + trail_blanks(ls.drop_last()) } else { 0 }
}

proof fn lemma_lead_blanks(ls: Seq<Seq<char>>)
    ensures
        lead_blanks(ls) <= ls.len(),
        drop_leading_blank(ls) == ls.skip(lead_blanks(ls) as int),
    decreases ls.len(),
{
    if ls.len() > 0 && ls[0].len() == 0 {
        lemma_lead_blanks(ls.drop_first());
        assert(ls.drop_first().skip(lead_blanks(ls.drop_first()) as int) =~= ls.skip(lead_blanks(ls) as int));
    } else {
        assert(ls.skip(0) =~= ls);
    }
}

proof fn lemma_trail_blanks(ls: Seq<Seq<char>>)
    ensures
        trail_blanks(ls) <= ls.len(),
        drop_trailing_blank(ls) == ls.take(ls.len() - trail_blanks(ls)),
    decreases ls.len(),
{
    if ls.len() > 0 && ls.last().len() == 0 {
        lemma_trail_blanks(ls.drop_last());
        assert(ls.drop_last().take(ls.drop_last().len() - trail_blanks(ls.drop_last())) =~= ls.take(ls.len() - trail_blanks(ls)));
    } else {
        assert(ls.take(ls.len() as int) =~= ls);
    }
}

/// For the newline-separated pieces of `join_lines(ls)`: each piece of a
/// line takes that line's mark (an empty text is one unmarked piece).
pub open spec fn piece_marks(ls: Seq<Seq<char>>, ms: Seq<bool>) -> Seq<bool>
    decreases ls.len(),
{
    if ls.len() == 0 {
        seq![false]
    } else if ls.len() == 1 {
        Seq::new(split_on(ls[0], '\n').len(), |i: int| ms[0])
    } else {
        piece_marks(ls.drop_last(), ms.drop_last()) + Seq::new(split_on(ls.last(), '\n').len(), |i: int| ms.last())
    }
}

proof fn lemma_piece_marks(ls: Seq<Seq<char>>, ms: Seq<bool>)
    requires
        marks_fit(ls, ms),
    ensures
        marks_fit(split_on(join_lines(ls), '\n'), piece_marks(ls, ms)),
    decreases ls.len(),
{
    if ls.len() == 0 {
        assert(split_on(seq![], '\n') =~= seq![seq![]]);
    } else {
        let last = ls.last();
        let pl = split_on(last, '\n');
        if !ms.last() {
            lemma_split_within(last);
        }
        if ls.len() == 1 {
            assert(join_lines(ls) == ls[0]);
            if !ms[0] {
                lemma_split_within(ls[0]);
            }
        } else {
            let init = ls.drop_last();
            let mi = ms.drop_last();
            assert forall|i: int| 0 <= i < init.len() && !mi[i] implies within_columns(#[trigger] init[i]) by {
                assert(init[i] == ls[i]);
                assert(mi[i] == ms[i]);
            }
            lemma_piece_marks(init, mi);
            lemma_split_concat(join_lines(init), last, '\n');
            let pi = split_on(join_lines(init), '\n');
            let all = split_on(join_lines(ls), '\n');
            assert(all == pi + pl);
            let pm = piece_marks(ls, ms);
            assert forall|j: int| 0 <= j < all.len() && !pm[j] implies within_columns(#[trigger] all[j]) by {
                if j < pi.len() {
                    assert(all[j] == pi[j]);
                    assert(pm[j] == piece_marks(init, mi)[j]);
                } else {
                    assert(all[j] == pl[j - pi.len()]);
                    assert(pm[j] == ms.last());
                }
            }
        }
    }
}

/// For each newline-separated line of a rendering's body, whether it is a
/// line of a code block.
pub open spec fn body_code_marks(evs: Seq<EventV>, slug: Seq<char>) -> Seq<bool> {
    let s = md_run(evs, slug);
    let f = flush(s);
    let ms = run_marks(evs, slug) + Seq::new((f.lines.len() - s.lines.len()) as nat, |i: int| false);
    let a = lead_blanks(f.lines) as int;
    let l1 = f.lines.skip(a);
    let n = l1.len() - trail_blanks(l1);
    piece_marks(l1.take(n), ms.skip(a).take(n))
}

/// Law: the rendered body keeps to 70 columns. Every newline-separated line
/// of the body that is not a line of a code block is at most 70 characters
/// long, or is list and quote markers followed by one word too long to break
/// (a bare URL, say); only code is emitted verbatim, whatever its width.
pub proof fn lemma_body_within_columns(evs: Seq<EventV>, slug: Seq<char>)
    ensures
        body_code_marks(evs, slug).len() == split_on(rendering(evs, slug).body, '\n').len(),
        forall|i: int| 0 <= i < split_on(rendering(evs, slug).body, '\n').len() && !body_code_marks(evs, slug)[i]
            ==> within_columns(#[trigger] split_on(rendering(evs, slug).body, '\n')[i]),
{
    let s = md_run(evs, slug);
    let f = flush(s);
    lemma_run_marks(evs, slug);
    lemma_run_markers(evs, slug);
    lemma_flush_lines(s);
    let ms = run_marks(evs, slug) + Seq::new((f.lines.len() - s.lines.len()) as nat, |i: int| false);
    lemma_marks_extend(s, f, run_marks(evs, slug));
    let a = lead_blanks(f.lines) as int;
    lemma_lead_blanks(f.lines);
    let l1 = f.lines.skip(a);
    lemma_trail_blanks(l1);
    let n = l1.len() - trail_blanks(l1);
    let ls = l1.take(n);
    let m2 = ms.skip(a).take(n);
    assert(drop_trailing_blank(drop_leading_blank(f.lines)) == ls);
    assert forall|i: int| 0 <= i < ls.len() && !m2[i] implies within_columns(#[trigger] ls[i]) by {
        assert(ls[i] == f.lines[i + a]);
        assert(m2[i] == ms[i + a]);
    }
    lemma_piece_marks(ls, m2);
}


/// Law: an item opens with its marker indented two spaces per enclosing list
/// level beyond the first (`• ` in a bullet list, `<n>. ` in an ordered one),
/// its continuation lines indented to the text after the marker; an ordered
/// list's next item gets the next number. Deeper items are indented further.
pub proof fn lemma_item_indent(s: MdSt, slug: Seq<char>)
    requires
        s.lists.len() > 0,
    ensures
        ({
            let t = md_event(s, EventV::Start(TagV::Item), slug);
            let depth = (s.lists.len() - 1) as nat;
            let marker = match s.lists.last() {
                Some(n) => decimal(n as nat) + seq!['.', ' '],
                None => seq!['•', ' '],
            };
            &&& t.lines == s.lines
            &&& t.items.len() == s.items.len() + 1
            &&& t.items.take(s.items.len() as int) == s.items
            &&& t.items.last().0 == Seq::new(2 * depth, |i: int| ' ') + marker
            &&& t.items.last().1 == Seq::new(2 * depth + marker.len(), |i: int| ' ')
            &&& !t.items.last().2
            &&& t.lists.len() == s.lists.len()
            &&& (s.lists.last() matches Some(n) ==> t.lists.last() == Some(if n == u64::MAX { 0u64 } else { (n + 1) as u64 }))
        }),
{
    let t = md_event(s, EventV::Start(TagV::Item), slug);
    reveal_strlit(". ");
    reveal_strlit("• ");
    let depth = (s.lists.len() - 1) as nat;
    let marker = item_marker(s.lists.last());
    match s.lists.last() {
        Some(n) => assert(marker =~= decimal(n as nat) + seq!['.', ' ']),
        None => assert(marker =~= seq!['•', ' ']),
    }
    assert(t.items.take(s.items.len() as int) =~= s.items);
    assert(repeat(' ', 2 * depth) + repeat(' ', marker.len()) =~= Seq::new(2 * depth + marker.len(), |i: int| ' '));
}


/// An event inside a paragraph's text: text, inline code or a line break.
pub open spec fn is_inline(ev: EventV) -> bool {
    ev is Text || ev is Code || ev is SoftBreak || ev is HardBreak
}

/// The text that inline events spell: texts and code as they are, each soft
/// or hard line break as one space.
pub open spec fn inline_text(evs: Seq<EventV>) -> Seq<char>
    decreases evs.len(),
{
    if evs.len() == 0 {
        seq![]
    } else {
        inline_text(evs.drop_last()) + match evs.last() {
            EventV::Text(t) => t,
            EventV::Code(t) => t,
            EventV::SoftBreak | EventV::HardBreak => seq![' '],
            _ => seq![],
        }
    }
}

/// The state after `evs`, starting from `s`.
pub open spec fn md_steps(s: MdSt, evs: Seq<EventV>, slug: Seq<char>) -> MdSt
    decreases evs.len(),
{
    if evs.len() == 0 { s } else { md_event(md_steps(s, evs.drop_last(), slug), evs.last(), slug) }
}

proof fn lemma_inline_steps(s: MdSt, evs: Seq<EventV>, slug: Seq<char>)
    requires
        !s.in_code,
        (s.image is None),
        forall|i: int| 0 <= i < evs.len() ==> is_inline(#[trigger] evs[i]),
    ensures
        md_steps(s, evs, slug) == (MdSt { inline: s.inline + inline_text(evs), ..s }),
    decreases evs.len(),
{
    if evs.len() == 0 {
        assert(s.inline + seq![] =~= s.inline);
    } else {
        let init = evs.drop_last();
        assert forall|i: int| 0 <= i < init.len() implies is_inline(#[trigger] init[i]) by {
            assert(init[i] == evs[i]);
        }
        lemma_inline_steps(s, init, slug);
        assert(is_inline(evs[evs.len() - 1]));
        let p = md_steps(s, init, slug);
        let t = md_steps(s, evs, slug);
        assert(t.inline =~= s.inline + inline_text(evs));
    }
}

/// Law: a paragraph's text keeps every word. Inside a paragraph (outside any
/// list or quote), text, inline code and line breaks only gather text, a soft
/// or hard break counting as a space; when the paragraph closes, the lines it
/// adds hold exactly the words of that text, in order, one space apart.
pub proof fn lemma_paragraph_words(s: MdSt, evs: Seq<EventV>, slug: Seq<char>)
    requires
        !s.in_code,
        (s.image is None),
        s.items.len() == 0,
        s.quote == 0,
        forall|i: int| 0 <= i < evs.len() ==> is_inline(#[trigger] evs[i]),
    ensures
        md_steps(s, evs, slug).inline == s.inline + inline_text(evs),
        md_steps(s, evs, slug).lines == s.lines,
        ({
            let t = md_event(md_steps(s, evs, slug), EventV::End(MdTagEnd::Paragraph), slug);
            &&& t.lines.take(s.lines.len() as int) == s.lines
            &&& unwords(t.lines.skip(s.lines.len() as int)) == unwords(words(s.inline + inline_text(evs)))
        }),
{
    lemma_inline_steps(s, evs, slug);
    let p = md_steps(s, evs, slug);
    let t = md_event(p, EventV::End(MdTagEnd::Paragraph), slug);
    assert(t == flush(p));
    let ws = words(p.inline);
    if ws.len() == 0 {
        assert(t.lines.skip(s.lines.len() as int) =~= Seq::<Seq<char>>::empty());
        assert(t.lines.take(s.lines.len() as int) =~= s.lines);
    } else {
        assert(prefixes(p) == (Seq::<char>::empty(), Seq::<char>::empty()));
        lemma_text_words(p.inline);
        lemma_wrap_keeps_words(ws, WRAP as nat);
        assert(t.lines.skip(s.lines.len() as int) =~= wrap_lines(ws, WRAP as nat, seq![], seq![]));
        assert(t.lines.take(s.lines.len() as int) =~= s.lines);
    }
}

} // verus!
