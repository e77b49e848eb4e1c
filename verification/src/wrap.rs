//! Greedy word wrapping.

use vstd::prelude::*;
use crate::text::{chars_of, has_prefix, is_ws, lemma_words_are_words, push_all, slice_chars, split_words, string_of, words};

verus! {

/// The wrapper's state after some words: finished lines, the prefix of the line
/// being filled, and the words placed on it so far (joined by single spaces).
pub struct WrapState {
    pub out: Seq<Seq<char>>,
    pub prefix: Seq<char>,
    pub cur: Seq<char>,
}

/// Places one more word: on the current line if prefix, line, a space and the
/// word fit in `width`, else on a fresh line with the continuation prefix.
pub open spec fn wrap_step(st: WrapState, w: Seq<char>, width: nat, cont: Seq<char>) -> WrapState {
    if st.cur.len() == 0 {
        WrapState { cur: w, ..st }
    } else if st.prefix.len() + st.cur.len() + 1 + w.len() <= width {
        WrapState { cur: st.cur.push(' ') + w, ..st }
    } else {
        WrapState { out: st.out.push(st.prefix + st.cur), prefix: cont, cur: w }
    }
}

/// The wrapper's state after placing all of `ws`.
pub open spec fn wrap_state(ws: Seq<Seq<char>>, width: nat, first: Seq<char>, cont: Seq<char>) -> WrapState
    decreases ws.len(),
{
    if ws.len() == 0 {
        WrapState { out: seq![], prefix: first, cur: seq![] }
    } else {
        wrap_step(wrap_state(ws.drop_last(), width, first, cont), ws.last(), width, cont)
    }
}

/// The lines that greedy wrapping makes of the words `ws`: `first` prefixes the
/// first line and `cont` every later one; no lines at all when there are no words.
pub open spec fn wrap_lines(ws: Seq<Seq<char>>, width: nat, first: Seq<char>, cont: Seq<char>) -> Seq<Seq<char>> {
    if ws.len() == 0 {
        seq![]
    } else {
        let st = wrap_state(ws, width, first, cont);
        st.out.push(st.prefix + st.cur)
    }
}

/// Greedy word-wrap of `text` appended to `out`: the first line gets `first`,
/// every further line `cont`, and `width` caps the whole line (prefix included).
/// A word longer than the room left goes on a line of its own.
pub fn wrap_into(text: &[char], width: usize, first: &[char], cont: &[char], out: &mut Vec<Vec<char>>)
    ensures
        final(out)@.map_values(|l: Vec<char>| l@) == old(out)@.map_values(|l: Vec<char>| l@)
            + wrap_lines(words(text@), width as nat, first@, cont@),
{
    let ghost start = old(out)@.map_values(|l: Vec<char>| l@);
    let ws = split_words(text);
    let ghost wsv = words(text@);
    if ws.len() == 0 {
        assert(out@.map_values(|l: Vec<char>| l@) =~= start + wrap_lines(wsv, width as nat, first@, cont@));
        return;
    }
    let mut prefix: Vec<char> = slice_chars(first, 0, first.len());
    let mut cur: Vec<char> = Vec::new();
    let mut added: Vec<Vec<char>> = Vec::new();
    let mut i: usize = 0;
    assert(first@.subrange(0, first@.len() as int) =~= first@);
    while i < ws.len()
        invariant
            i <= ws@.len(),
            ws@.map_values(|w: Vec<char>| w@) == wsv,
            ({
                let st = wrap_state(wsv.take(i as int), width as nat, first@, cont@);
                &&& st.out == added@.map_values(|l: Vec<char>| l@)
                &&& st.prefix == prefix@
                &&& st.cur == cur@
            }),
        decreases ws@.len() - i,
    {
        let w = &ws[i];
        assert(wsv.take(i as int + 1).drop_last() =~= wsv.take(i as int));
        assert(wsv.take(i as int + 1).last() == w@);
        let p = prefix.len();
        let c = cur.len();
        if c == 0 {
            push_all(&mut cur, w);
        } else if p <= width && c <= width - p && 1 <= width - p - c && w.len() <= width - p - c - 1 {
            cur.push(' ');
            push_all(&mut cur, w);
        } else {
            let mut line = slice_chars(&prefix, 0, prefix.len());
            assert(prefix@.subrange(0, prefix@.len() as int) =~= prefix@);
            push_all(&mut line, &cur);
            let ghost before = added@.map_values(|l: Vec<char>| l@);
            added.push(line);
            assert(added@.map_values(|l: Vec<char>| l@) =~= before.push(line@));
            prefix = slice_chars(cont, 0, cont.len());
            assert(cont@.subrange(0, cont@.len() as int) =~= cont@);
            cur = slice_chars(w, 0, w.len());
            assert(w@.subrange(0, w@.len() as int) =~= w@);
        }
        i = i + 1;
    }
    assert(wsv.take(ws@.len() as int) =~= wsv);
    let mut line = slice_chars(&prefix, 0, prefix.len());
    assert(prefix@.subrange(0, prefix@.len() as int) =~= prefix@);
    push_all(&mut line, &cur);
    let ghost before = added@.map_values(|l: Vec<char>| l@);
    added.push(line);
    assert(added@.map_values(|l: Vec<char>| l@) =~= before.push(line@));
    let mut j: usize = 0;
    let ghost mid = out@.map_values(|l: Vec<char>| l@);
    while j < added.len()
        invariant
            j <= added@.len(),
            mid == start,
            out@.map_values(|l: Vec<char>| l@) == start + added@.map_values(|l: Vec<char>| l@).take(j as int),
        decreases added@.len() - j,
    {
        let ghost o = out@.map_values(|l: Vec<char>| l@);
        let l = slice_chars(&added[j], 0, added[j].len());
        assert(added@[j as int]@.subrange(0, added@[j as int]@.len() as int) =~= added@[j as int]@);
        out.push(l);
        assert(out@.map_values(|l: Vec<char>| l@) =~= o.push(l@));
        j = j + 1;
        assert(added@.map_values(|l: Vec<char>| l@).take(j as int) =~= added@.map_values(|l: Vec<char>| l@).take(j - 1).push(added@[j - 1]@));
    }
    assert(added@.map_values(|l: Vec<char>| l@).take(j as int) =~= added@.map_values(|l: Vec<char>| l@));
}

/// Word-wraps `text` to `width` columns: the greedy lines, without prefixes.
pub fn wrap(text: &str, width: usize) -> (r: Vec<String>)
    ensures
        r@.map_values(|l: String| l@) == wrap_lines(words(text@), width as nat, seq![], seq![]),
        forall|i: int| 0 <= i < r@.len() ==> #[trigger] r@[i]@.len() <= width || no_ws(r@[i]@),
        unwords(r@.map_values(|l: String| l@)) == unwords(words(text@)),
{
    proof {
        lemma_text_words(text@);
        lemma_wrap_fits(words(text@), width as nat, seq![], seq![]);
        lemma_wrap_keeps_words(words(text@), width as nat);
    }
    let cs = chars_of(text);
    let e: Vec<char> = Vec::new();
    let mut lines: Vec<Vec<char>> = Vec::new();
    wrap_into(&cs, width, &e, &e, &mut lines);
    assert(e@ =~= seq![]);
    assert(lines@.map_values(|l: Vec<char>| l@) =~= wrap_lines(words(text@), width as nat, seq![], seq![]));
    let mut out: Vec<String> = Vec::new();
    let mut i: usize = 0;
    while i < lines.len()
        invariant
            i <= lines@.len(),
            out@.map_values(|l: String| l@) == lines@.map_values(|l: Vec<char>| l@).take(i as int),
        decreases lines@.len() - i,
    {
        let ghost o = out@.map_values(|l: String| l@);
        let l = string_of(&lines[i]);
        out.push(l);
        assert(out@.map_values(|l: String| l@) =~= o.push(l@));
        i = i + 1;
        assert(lines@.map_values(|l: Vec<char>| l@).take(i as int) =~= lines@.map_values(|l: Vec<char>| l@).take(i - 1).push(lines@[i - 1]@));
    }
    assert(lines@.map_values(|l: Vec<char>| l@).take(i as int) =~= lines@.map_values(|l: Vec<char>| l@));
    proof {
        let ls = out@.map_values(|l: String| l@);
        assert forall|i: int| 0 <= i < out@.len() implies #[trigger] out@[i]@.len() <= width || no_ws(out@[i]@) by {
            assert(ls[i] == out@[i]@);
            assert(fits_or_one_word(ls[i], seq![], width as nat));
            assert(ls[i].skip(0) =~= ls[i]);
        }
    }
    out
}

/// Whether `s` holds no white space.
pub open spec fn no_ws(s: Seq<char>) -> bool {
    forall|j: int| 0 <= j < s.len() ==> !is_ws(#[trigger] s[j])
}

/// Whether every one of `ws` is a word: non-empty, without white space.
pub open spec fn all_words(ws: Seq<Seq<char>>) -> bool {
    forall|i: int| 0 <= i < ws.len() ==> #[trigger] ws[i].len() > 0 && no_ws(ws[i])
}

/// A wrapped line is good when it fits in `width`, or is its prefix followed
/// by one single word.
pub open spec fn fits_or_one_word(l: Seq<char>, p: Seq<char>, width: nat) -> bool {
    l.len() <= width || (has_prefix(l, p) && no_ws(l.skip(p.len() as int)))
}

proof fn lemma_wrap_state_fits(ws: Seq<Seq<char>>, width: nat, first: Seq<char>, cont: Seq<char>)
    requires
        all_words(ws),
    ensures
        ({
            let st = wrap_state(ws, width, first, cont);
            &&& st.prefix == (if st.out.len() == 0 { first } else { cont })
            &&& forall|i: int| 0 <= i < st.out.len() ==> fits_or_one_word(
                #[trigger] st.out[i],
                if i == 0 { first } else { cont },
                width,
            )
            &&& (ws.len() == 0 ==> st.cur.len() == 0 && st.out.len() == 0)
            &&& (ws.len() > 0 ==> st.cur.len() > 0 && fits_or_one_word(st.prefix + st.cur, st.prefix, width))
        }),
    decreases ws.len(),
{
    if ws.len() > 0 {
        let prev = ws.drop_last();
        assert(all_words(prev)) by {
            assert forall|i: int| 0 <= i < prev.len() implies #[trigger] prev[i].len() > 0 && no_ws(prev[i]) by {
                assert(prev[i] == ws[i]);
            }
        }
        lemma_wrap_state_fits(prev, width, first, cont);
        let st = wrap_state(prev, width, first, cont);
        let w = ws.last();
        assert(w.len() > 0 && no_ws(w)) by {
            assert(ws[ws.len() - 1] == w);
        }
        let ns = wrap_state(ws, width, first, cont);
        if st.cur.len() == 0 {
            assert((st.prefix + w).skip(st.prefix.len() as int) =~= w);
            assert((st.prefix + w).take(st.prefix.len() as int) =~= st.prefix);
            assert(ns.prefix == st.prefix && ns.out == st.out && ns.cur == w);
        } else if st.prefix.len() + st.cur.len() + 1 + w.len() <= width {
            assert(ns.prefix == st.prefix && ns.out == st.out);
            assert((ns.prefix + ns.cur).len() <= width);
        } else {
            assert((cont + w).skip(cont.len() as int) =~= w);
            assert((cont + w).take(cont.len() as int) =~= cont);
            assert(ns.out =~= st.out.push(st.prefix + st.cur));
            assert(ns.prefix == cont && ns.cur == w);
            assert forall|i: int| 0 <= i < ns.out.len() implies fits_or_one_word(
                #[trigger] ns.out[i],
                if i == 0 { first } else { cont },
                width,
            ) by {
                if i < st.out.len() {
                    assert(ns.out[i] == st.out[i]);
                } else {
                    assert(ns.out[i] == st.prefix + st.cur);
                }
            }
        }
    }
}

/// Law: every line greedy wrapping makes of words fits in `width`, or is its
/// prefix (`first` on the first line, `cont` after) followed by a single word
/// too long for the room left.
pub proof fn lemma_wrap_fits(ws: Seq<Seq<char>>, width: nat, first: Seq<char>, cont: Seq<char>)
    requires
        all_words(ws),
    ensures
        forall|i: int| 0 <= i < wrap_lines(ws, width, first, cont).len() ==> fits_or_one_word(
            #[trigger] wrap_lines(ws, width, first, cont)[i],
            if i == 0 { first } else { cont },
            width,
        ),
{
    lemma_wrap_state_fits(ws, width, first, cont);
}

/// The words of `text` are words.
pub proof fn lemma_text_words(text: Seq<char>)
    ensures
        all_words(words(text)),
{
    lemma_words_are_words(text);
    assert forall|i: int| 0 <= i < words(text).len() implies #[trigger] words(text)[i].len() > 0 && no_ws(words(text)[i]) by {
        assert forall|j: int| 0 <= j < words(text)[i].len() implies !is_ws(#[trigger] words(text)[i][j]) by {}
    }
}

/// `ws` joined by single spaces.
pub open spec fn unwords(ws: Seq<Seq<char>>) -> Seq<char>
    decreases ws.len(),
{
    if ws.len() == 0 {
        seq![]
    } else if ws.len() == 1 {
        ws[0]
    } else {
        unwords(ws.drop_last()) + seq![' '] + ws.last()
    }
}

proof fn lemma_wrap_state_keeps(ws: Seq<Seq<char>>, width: nat)
    requires
        all_words(ws),
    ensures
        ({
            let st = wrap_state(ws, width, seq![], seq![]);
            &&& st.prefix == Seq::<char>::empty()
            &&& (ws.len() == 0 ==> st.cur.len() == 0 && st.out.len() == 0)
            &&& (ws.len() > 0 ==> st.cur.len() > 0 && unwords(st.out.push(st.cur)) == unwords(ws))
        }),
    decreases ws.len(),
{
    if ws.len() > 0 {
        let prev = ws.drop_last();
        assert(all_words(prev)) by {
            assert forall|i: int| 0 <= i < prev.len() implies #[trigger] prev[i].len() > 0 && no_ws(prev[i]) by {
                assert(prev[i] == ws[i]);
            }
        }
        lemma_wrap_state_keeps(prev, width);
        let st = wrap_state(prev, width, seq![], seq![]);
        let w = ws.last();
        assert(w.len() > 0) by {
            assert(ws[ws.len() - 1] == w);
        }
        let ns = wrap_state(ws, width, seq![], seq![]);
        if st.cur.len() == 0 {
            assert(st.out.push(w) =~= seq![w]);
            assert(ws =~= seq![w]);
        } else if st.prefix.len() + st.cur.len() + 1 + w.len() <= width {
            assert(ns.out.push(ns.cur).drop_last() =~= st.out);
            assert(st.out.push(st.cur).drop_last() =~= st.out);
            if st.out.len() == 0 {
                assert(unwords(ns.out.push(ns.cur)) =~= unwords(st.out.push(st.cur)) + seq![' '] + w);
            } else {
                assert(unwords(ns.out.push(ns.cur)) =~= unwords(st.out.push(st.cur)) + seq![' '] + w);
            }
        } else {
            assert(ns.out.push(ns.cur).drop_last() =~= st.out.push(st.prefix + st.cur));
            assert(st.prefix + st.cur =~= st.cur);
        }
    }
}

/// Law: wrapping without prefixes loses, adds and reorders no word: its lines
/// joined by single spaces are the words joined by single spaces.
pub proof fn lemma_wrap_keeps_words(ws: Seq<Seq<char>>, width: nat)
    requires
        all_words(ws),
    ensures
        unwords(wrap_lines(ws, width, seq![], seq![])) == unwords(ws),
{
    lemma_wrap_state_keeps(ws, width);
    if ws.len() > 0 {
        let st = wrap_state(ws, width, seq![], seq![]);
        assert(st.prefix + st.cur =~= st.cur);
    }
}

} // verus!
