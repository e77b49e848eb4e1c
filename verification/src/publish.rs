//! The publisher's pure half: serializing a menu into a geomyidae `.gph` index
//! and choosing which old snapshots to garbage-collect. Writing files, flipping
//! the `current` link and removing directories is left to the caller.

use vstd::prelude::*;
use crate::render::{Entry, EntryV, ItemKind, menu_view};
use crate::text::{chars_of, decimal, decimal_of, has_prefix, lex_lt, push_all, same_text, starts_with_str, string_of, text_less};

verus! {

/// Published snapshots retained by default (besides whatever `current`
/// resolves to).
pub const KEEP_SNAPSHOTS: usize = 3;

/// One file to write into a snapshot: path relative to the snapshot root, and
/// its bytes.
pub type TreeFile = (String, Vec<u8>);

/// `s` with every `|` written as `\|` (geomyidae's escape for its field separator).
pub open spec fn gph_escaped(s: Seq<char>) -> Seq<char>
    decreases s.len(),
{
    if s.len() == 0 {
        seq![]
    } else {
        gph_escaped(s.drop_last()) + if s.last() == '|' { seq!['\\', '|'] } else { seq![s.last()] }
    }
}

/// The type character of a link.
pub open spec fn type_char(kind: ItemKind) -> char {
    match kind {
        ItemKind::Text => '0',
        ItemKind::Menu => '1',
        ItemKind::Url => 'h',
        ItemKind::Bin => '9',
    }
}

/// One `.gph` line. An info line is its text (with a leading space when it
/// starts with `[`, which would otherwise read as a link); a link is
/// `[<type>|<name>|<selector>|<host>|<port>]` with `|` escaped in the fields and
/// the placeholder tokens `server` / `port` where no host / port is given.
pub open spec fn gph_line(e: EntryV) -> Seq<char> {
    match e {
        EntryV::Info(s) => (if s.len() > 0 && s[0] == '[' { seq![' '] } else { seq![] }) + s + seq!['\n'],
        EntryV::Link { kind, display, selector, host, port } => seq!['[', type_char(kind), '|']
            + gph_escaped(display) + seq!['|'] + gph_escaped(selector) + seq!['|']
            + gph_escaped(match host { Some(h) => h, None => "server"@ }) + seq!['|']
            + match port { Some(p) => decimal(p as nat), None => "port"@ } + seq![']', '\n'],
    }
}

/// The `.gph` index of a menu: its lines, in order.
pub open spec fn gph_menu(es: Seq<EntryV>) -> Seq<char>
    decreases es.len(),
{
    if es.len() == 0 { seq![] } else { gph_menu(es.drop_last()) + gph_line(es.last()) }
}

/// Escapes the `.gph` field separator `|` within a field.
pub fn gph_escape(s: &[char]) -> (r: Vec<char>)
    ensures
        r@ == gph_escaped(s@),
{
    let mut r: Vec<char> = Vec::new();
    let mut i: usize = 0;
    while i < s.len()
        invariant
            i <= s@.len(),
            r@ == gph_escaped(s@.take(i as int)),
        decreases s@.len() - i,
    {
        assert(s@.take(i as int + 1).drop_last() =~= s@.take(i as int));
        let ghost before = r@;
        if s[i] == '|' {
            r.push('\\');
            r.push('|');
        } else {
            r.push(s[i]);
        }
        i = i + 1;
        assert(r@ =~= gph_escaped(s@.take(i as int)));
    }
    assert(s@.take(i as int) =~= s@);
    r
}

/// The type character of a link.
fn type_char_of(kind: ItemKind) -> (c: char)
    ensures
        c == type_char(kind),
{
    match kind {
        ItemKind::Text => '0',
        ItemKind::Menu => '1',
        ItemKind::Url => 'h',
        ItemKind::Bin => '9',
    }
}

/// The port column of a link.
fn port_column(port: Option<u16>) -> (r: Vec<char>)
    ensures
        r@ == match port { Some(p) => decimal(p as nat), None => "port"@ },
{
    match port {
        Some(p) => decimal_of(p as u64),
        None => chars_of("port"),
    }
}

/// One `.gph` line for `e`.
fn gph_entry_line(e: &Entry) -> (r: Vec<char>)
    ensures
        r@ == gph_line(e@),
{
    match e {
        Entry::Info(s) => {
            let cs = chars_of(s.as_str());
            let mut out: Vec<char> = Vec::new();
            if cs.len() > 0 && cs[0] == '[' {
                out.push(' ');
            }
            push_all(&mut out, &cs);
            out.push('\n');
            assert(out@ =~= gph_line(e@));
            out
        },
        Entry::Link { kind, display, selector, host, port } => {
            let mut out: Vec<char> = Vec::new();
            out.push('[');
            out.push(type_char_of(*kind));
            out.push('|');
            let d = gph_escape(&chars_of(display.as_str()));
            push_all(&mut out, &d);
            out.push('|');
            let sel = gph_escape(&chars_of(selector.as_str()));
            push_all(&mut out, &sel);
            out.push('|');
            let server = match host {
                Some(h) => chars_of(h.as_str()),
                None => chars_of("server"),
            };
            let hs = gph_escape(&server);
            push_all(&mut out, &hs);
            out.push('|');
            let pc = port_column(*port);
            push_all(&mut out, &pc);
            out.push(']');
            out.push('\n');
            assert(out@ =~= gph_line(e@));
            out
        },
    }
}

/// Serializes a daemon-agnostic menu into a geomyidae `.gph` index (see
/// [`gph_line`]).
pub fn render_menu_index(entries: &[Entry]) -> (r: String)
    ensures
        r@ == gph_menu(menu_view(entries@)),
{
    let ghost ev = menu_view(entries@);
    let mut out: Vec<char> = Vec::new();
    let mut i: usize = 0;
    while i < entries.len()
        invariant
            i <= entries@.len(),
            ev == menu_view(entries@),
            out@ == gph_menu(ev.take(i as int)),
        decreases entries@.len() - i,
    {
        assert(ev.take(i as int + 1).drop_last() =~= ev.take(i as int));
        let line = gph_entry_line(&entries[i]);
        push_all(&mut out, &line);
        i = i + 1;
    }
    assert(ev.take(i as int) =~= ev);
    string_of(&out)
}

/// Where `x` goes among the ordered names `s`: before the first name it sorts
/// strictly before, after all the others.
pub open spec fn name_pos(s: Seq<Seq<char>>, x: Seq<char>) -> int
    decreases s.len(),
{
    if s.len() == 0 {
        0
    } else if lex_lt(x, s[0]) {
        0
    } else {
        1 + name_pos(s.drop_first(), x)
    }
}

/// The snapshot names (`out-*`) among `names`, in ascending order: nanosecond
/// names sort chronologically, newest last.
pub open spec fn snapshots_of(names: Seq<Seq<char>>) -> Seq<Seq<char>>
    decreases names.len(),
{
    if names.len() == 0 {
        seq![]
    } else {
        let o = snapshots_of(names.drop_last());
        let x = names.last();
        if has_prefix(x, "out-"@) { o.insert(name_pos(o, x), x) } else { o }
    }
}

/// `s` without any `c`.
pub open spec fn without(s: Seq<Seq<char>>, c: Seq<char>) -> Seq<Seq<char>>
    decreases s.len(),
{
    if s.len() == 0 {
        seq![]
    } else {
        let o = without(s.drop_last(), c);
        if s.last() == c { o } else { o.push(s.last()) }
    }
}

/// The snapshots to remove from a directory holding `names`: every snapshot
/// but the newest `keep` and the one `current` points at, oldest first.
pub open spec fn stale_of(names: Seq<Seq<char>>, current: Seq<char>, keep: nat) -> Seq<Seq<char>> {
    without(older_snapshots(names, keep), current)
}

/// The snapshots among `names` other than the newest `keep`, oldest first.
pub open spec fn older_snapshots(names: Seq<Seq<char>>, keep: nat) -> Seq<Seq<char>> {
    let snaps = snapshots_of(names);
    snaps.take(if snaps.len() > keep { snaps.len() - keep } else { 0 })
}

/// The texts of a list of strings.
pub open spec fn names_view(v: Seq<String>) -> Seq<Seq<char>> {
    v.map_values(|s: String| s@)
}

/// Chooses the snapshots to garbage-collect among the directory names `names`
/// of the output root: all `out-*` snapshots except the newest `keep` and
/// `current`, the one just published (see [`stale_of`]).
pub fn stale_snapshots(names: Vec<String>, current: &str, keep: usize) -> (r: Vec<String>)
    ensures
        names_view(r@) == stale_of(names_view(names@), current@, keep as nat),
{
    let ghost nv = names_view(names@);
    let mut snaps: Vec<String> = Vec::new();
    for x in it: names
        invariant
            it.seq() == names@,
            nv == names_view(names@),
            names_view(snaps@) == snapshots_of(nv.take(it.index() as int)),
    {
        let ghost i = it.index();
        assert(nv.take(i + 1).drop_last() =~= nv.take(i));
        assert(nv.take(i + 1).last() == x@);
        let xc = chars_of(x.as_str());
        if starts_with_str(&xc, "out-") {
            let ghost sv = names_view(snaps@);
            let mut j: usize = 0;
            assert(sv.skip(0) =~= sv);
            while j < snaps.len() && !text_less(&xc, &chars_of(snaps[j].as_str()))
                invariant
                    j <= snaps@.len(),
                    sv == names_view(snaps@),
                    name_pos(sv, xc@) == j + name_pos(sv.skip(j as int), xc@),
                decreases snaps@.len() - j,
            {
                assert(sv.skip(j as int).drop_first() =~= sv.skip(j + 1));
                j = j + 1;
            }
            assert(name_pos(sv, x@) == j);
            snaps.insert(j, x);
            assert(names_view(snaps@) =~= sv.insert(j as int, x@));
        }
    }
    assert(nv.take(nv.len() as int) =~= nv);
    let ghost sv = names_view(snaps@);
    let n = snaps.len();
    let old_count: usize = if n > keep { n - keep } else { 0 };
    let cur = chars_of(current);
    let mut out: Vec<String> = Vec::new();
    let mut i: usize = 0;
    while i < old_count
        invariant
            i <= old_count <= snaps@.len(),
            sv == names_view(snaps@),
            cur@ == current@,
            names_view(out@) == without(sv.take(i as int), current@),
        decreases old_count - i,
    {
        assert(sv.take(i + 1).drop_last() =~= sv.take(i as int));
        let s = chars_of(snaps[i].as_str());
        if !same_text(&s, current) {
            let ghost ov = names_view(out@);
            out.push(string_of(&s));
            assert(names_view(out@) =~= ov.push(sv[i as int]));
        }
        i = i + 1;
    }
    out
}

/// What geomyidae reads back from an escaped field: `\|` stands for `|`.
pub open spec fn gph_unescaped(t: Seq<char>) -> Seq<char>
    decreases t.len(),
{
    if t.len() == 0 {
        seq![]
    } else if t.len() >= 2 && t[0] == '\\' && t[1] == '|' {
        seq!['|'] + gph_unescaped(t.skip(2))
    } else {
        seq![t[0]] + gph_unescaped(t.drop_first())
    }
}

proof fn lemma_escape_concat(a: Seq<char>, b: Seq<char>)
    ensures
        gph_escaped(a + b) == gph_escaped(a) + gph_escaped(b),
    decreases b.len(),
{
    if b.len() == 0 {
        assert(a + b =~= a);
    } else {
        lemma_escape_concat(a, b.drop_last());
        assert((a + b).drop_last() =~= a + b.drop_last());
        assert((a + b).last() == b.last());
    }
}

proof fn lemma_escape_one(c: char)
    ensures
        gph_escaped(seq![c]) == (if c == '|' { seq!['\\', '|'] } else { seq![c] }),
{
    let s = seq![c];
    assert(s.drop_last() =~= Seq::<char>::empty());
    assert(s.last() == c);
    assert(gph_escaped(s) =~= gph_escaped(s.drop_last()) + (if c == '|' { seq!['\\', '|'] } else { seq![c] }));
}

proof fn lemma_escape_first(s: Seq<char>)
    requires
        s.len() > 0,
    ensures
        gph_escaped(s).len() > 0,
        gph_escaped(s)[0] == (if s[0] == '|' { '\\' } else { s[0] }),
        s[0] == '|' ==> gph_escaped(s).len() >= 2 && gph_escaped(s)[1] == '|',
{
    lemma_escape_concat(seq![s[0]], s.drop_first());
    lemma_escape_one(s[0]);
    assert(seq![s[0]] + s.drop_first() =~= s);
}

/// Law: escaping a field loses nothing: reading `\|` back as `|` gives the
/// field again.
pub proof fn lemma_escape_roundtrip(s: Seq<char>)
    ensures
        gph_unescaped(gph_escaped(s)) == s,
    decreases s.len(),
{
    if s.len() > 0 {
        let c = s[0];
        let rest = s.drop_first();
        lemma_escape_roundtrip(rest);
        lemma_escape_concat(seq![c], rest);
        assert(seq![c] + rest =~= s);
        lemma_escape_one(c);
        let e = gph_escaped(s);
        if c == '|' {
            assert(gph_escaped(seq![c]) =~= seq!['\\', '|']);
            assert(e.skip(2) =~= gph_escaped(rest));
        } else {
            assert(gph_escaped(seq![c]) =~= seq![c]);
            assert(e.drop_first() =~= gph_escaped(rest));
            if c == '\\' && rest.len() > 0 {
                lemma_escape_first(rest);
            }
        }
    }
}

/// Law: an info line never starts with `[`, so a daemon never reads it as a
/// link; a link line always does.
pub proof fn lemma_info_stays_info(e: EntryV)
    ensures
        (gph_line(e)[0] == '[') <==> (e is Link),
{
    match e {
        EntryV::Info(s) => {
            if s.len() > 0 && s[0] == '[' {
                assert(gph_line(e)[0] == ' ');
            } else if s.len() > 0 {
                assert(gph_line(e)[0] == s[0]);
            } else {
                assert(gph_line(e)[0] == '\n');
            }
        },
        EntryV::Link { .. } => {},
    }
}

/// Law: garbage collection keeps the snapshot just published and the newest
/// `keep` snapshots: everything it removes is an older snapshot.
pub proof fn lemma_gc_keeps(names: Seq<Seq<char>>, current: Seq<char>, keep: nat)
    ensures
        !stale_of(names, current, keep).contains(current),
        forall|i: int| 0 <= i < stale_of(names, current, keep).len() ==> older_snapshots(names, keep).contains(
            #[trigger] stale_of(names, current, keep)[i],
        ),
{
    let old = older_snapshots(names, keep);
    lemma_without(old, current);
    let st = stale_of(names, current, keep);
    assert forall|i: int| 0 <= i < st.len() implies old.contains(#[trigger] st[i]) by {
        let j = choose|j: int| 0 <= j < old.len() && old[j] == st[i];
    }
}

proof fn lemma_without(s: Seq<Seq<char>>, c: Seq<char>)
    ensures
        !without(s, c).contains(c),
        forall|i: int| 0 <= i < without(s, c).len() ==> exists|j: int| 0 <= j < s.len() && s[j] == #[trigger] without(s, c)[i],
    decreases s.len(),
{
    if s.len() > 0 {
        lemma_without(s.drop_last(), c);
        let o = without(s.drop_last(), c);
        let w = without(s, c);
        assert forall|i: int| 0 <= i < w.len() implies exists|j: int| 0 <= j < s.len() && s[j] == #[trigger] w[i] by {
            if i < o.len() {
                assert(w[i] == o[i]);
                let j = choose|j: int| 0 <= j < s.drop_last().len() && s.drop_last()[j] == o[i];
                assert(s[j] == w[i]);
            } else {
                assert(s[s.len() - 1] == w[i]);
            }
        }
        if s.last() != c {
            assert forall|i: int| 0 <= i < w.len() implies w[i] != c by {
                if i < o.len() {
                    assert(w[i] == o[i]);
                    assert(!o.contains(c));
                }
            }
        }
    }
}

} // verus!
