//! The command line: flags, defaults and the `--cta-link` hub link.

use vstd::prelude::*;
use crate::publish::KEEP_SNAPSHOTS;
use crate::text::{
    all_digits, chars_of, decimal, has_prefix, lemma_decimal_digits, parse_unsigned, parse_unsigned_chars, push_all, push_str,
    same_text, slice_chars, starts_with_str, string_of,
};

verus! {

/// The parsed command line.
pub struct Config {
    /// Hugo content root (holds `posts/*/index.md`).
    pub content: String,
    /// Output root: snapshots go to `out-<ts>/`, `current` points at the newest.
    pub out: String,
    /// Host advertised in generated `.gph` links.
    pub host: String,
    /// Port advertised in generated `.gph` links.
    pub port: u16,
    /// The hub link back to the cta hole, as `(host, port)`.
    pub cta_link: Option<(String, u16)>,
    /// Snapshots retained on garbage collection.
    pub keep: usize,
}

/// A configuration's value.
pub struct ConfigV {
    pub content: Seq<char>,
    pub out: Seq<char>,
    pub host: Seq<char>,
    pub port: u16,
    pub cta_link: Option<(Seq<char>, u16)>,
    pub keep: nat,
}

impl View for Config {
    type V = ConfigV;

    open spec fn view(&self) -> ConfigV {
        ConfigV {
            content: self.content@,
            out: self.out@,
            host: self.host@,
            port: self.port,
            cta_link: match self.cta_link {
                Some((h, p)) => Some((h@, p)),
                None => None,
            },
            keep: self.keep as nat,
        }
    }
}

/// Whether `s` is `none` in any ASCII case.
pub open spec fn is_none_word(s: Seq<char>) -> bool {
    &&& s.len() == 4
    &&& (s[0] == 'n' || s[0] == 'N')
    &&& (s[1] == 'o' || s[1] == 'O')
    &&& (s[2] == 'n' || s[2] == 'N')
    &&& (s[3] == 'e' || s[3] == 'E')
}

/// `s` up to its first `c` (all of `s` when there is none).
pub open spec fn before_first(s: Seq<char>, c: char) -> Seq<char> {
    match s.index_of_first(c) {
        Some(k) => s.take(k),
        None => s,
    }
}

/// What `--cta-link` means: empty or `none` (any ASCII case) disables the link;
/// otherwise a `gopher://host[:port]` URL, any path after the authority
/// ignored, port 70 by default.
pub open spec fn cta_link_of(raw: Seq<char>) -> Result<Option<(Seq<char>, u16)>, Seq<char>> {
    if raw.len() == 0 || is_none_word(raw) {
        Ok(None)
    } else if !has_prefix(raw, "gopher://"@) {
        Err("--cta-link must start with gopher:// (got "@ + raw + ")"@)
    } else {
        let authority = before_first(raw.skip("gopher://"@.len() as int), '/');
        match authority.index_of_last(':') {
            Some(k) => {
                let host = authority.take(k);
                let p = authority.skip(k + 1);
                match parse_unsigned(p, 65535) {
                    None => Err("invalid port in --cta-link: "@ + p),
                    Some(port) => if host.len() == 0 {
                        Err("--cta-link has no host: "@ + raw)
                    } else {
                        Ok(Some((host, port as u16)))
                    },
                }
            },
            None => if authority.len() == 0 {
                Err("--cta-link has no host: "@ + raw)
            } else {
                Ok(Some((authority, 70u16)))
            },
        }
    }
}

/// The result's value.
pub open spec fn cta_view(r: Result<Option<(String, u16)>, String>) -> Result<Option<(Seq<char>, u16)>, Seq<char>> {
    match r {
        Ok(Some((h, p))) => Ok(Some((h@, p))),
        Ok(None) => Ok(None),
        Err(e) => Err(e@),
    }
}

/// The first `c` in `s`.
fn find_first(s: &[char], c: char) -> (r: Option<usize>)
    ensures
        match r {
            Some(k) => k < s@.len() && s@.index_of_first(c) == Some(k as int),
            None => s@.index_of_first(c) is None,
        },
{
    let mut i: usize = 0;
    while i < s.len()
        invariant
            i <= s@.len(),
            forall|j: int| 0 <= j < i ==> s@[j] != c,
        decreases s@.len() - i,
    {
        if s[i] == c {
            proof {
                s@.index_of_first_ensures(c);
                assert(s@.contains(c));
                match s@.index_of_first(c) {
                    Some(k) => {
                        if k < i {
                        } else if k > i {
                        }
                    },
                    None => {
                        assert(s@.contains(c));
                    },
                }
            }
            return Some(i);
        }
        i = i + 1;
    }
    proof {
        s@.index_of_first_ensures(c);
        match s@.index_of_first(c) {
            Some(k) => {
                assert(s@[k] == c);
            },
            None => {},
        }
    }
    None
}

/// The last `c` in `s`.
fn find_last(s: &[char], c: char) -> (r: Option<usize>)
    ensures
        match r {
            Some(k) => k < s@.len() && s@.index_of_last(c) == Some(k as int),
            None => s@.index_of_last(c) is None,
        },
{
    let mut i: usize = s.len();
    while i > 0
        invariant
            i <= s@.len(),
            forall|j: int| i <= j < s@.len() ==> s@[j] != c,
        decreases i,
    {
        if s[i - 1] == c {
            proof {
                s@.index_of_last_ensures(c);
                assert(s@.contains(c));
                match s@.index_of_last(c) {
                    Some(k) => {},
                    None => {
                        assert(s@.contains(c));
                    },
                }
            }
            return Some(i - 1);
        }
        i = i - 1;
    }
    proof {
        s@.index_of_last_ensures(c);
        match s@.index_of_last(c) {
            Some(k) => {
                assert(s@[k] == c);
            },
            None => {},
        }
    }
    None
}

/// Parses `--cta-link` (see [`cta_link_of`]).
pub fn parse_cta_link(raw: &str) -> (r: Result<Option<(String, u16)>, String>)
    ensures
        cta_view(r) == cta_link_of(raw@),
{
    let rc = chars_of(raw);
    if rc.len() == 0 || (rc.len() == 4 && (rc[0] == 'n' || rc[0] == 'N') && (rc[1] == 'o' || rc[1]
        == 'O') && (rc[2] == 'n' || rc[2] == 'N') && (rc[3] == 'e' || rc[3] == 'E')) {
        return Ok(None);
    }
    if !starts_with_str(&rc, "gopher://") {
        let mut m = chars_of("--cta-link must start with gopher:// (got ");
        push_all(&mut m, &rc);
        push_str(&mut m, ")");
        return Err(string_of(&m));
    }
    let skip = chars_of("gopher://").len();
    let rest = slice_chars(&rc, skip, rc.len());
    assert(rest@ =~= rc@.skip("gopher://"@.len() as int));
    let authority = match find_first(&rest, '/') {
        Some(k) => slice_chars(&rest, 0, k),
        None => rest,
    };
    assert(authority@ =~= before_first(raw@.skip("gopher://"@.len() as int), '/'));
    match find_last(&authority, ':') {
        Some(k) => {
            let host = slice_chars(&authority, 0, k);
            let p = slice_chars(&authority, k + 1, authority.len());
            assert(host@ =~= authority@.take(k as int));
            assert(p@ =~= authority@.skip(k + 1));
            match parse_unsigned_chars(&p, 65535) {
                None => {
                    let mut m = chars_of("invalid port in --cta-link: ");
                    push_all(&mut m, &p);
                    Err(string_of(&m))
                },
                Some(port) => {
                    if host.len() == 0 {
                        let mut m = chars_of("--cta-link has no host: ");
                        push_all(&mut m, &rc);
                        Err(string_of(&m))
                    } else {
                        Ok(Some((string_of(&host), port as u16)))
                    }
                },
            }
        },
        None => {
            if authority.len() == 0 {
                let mut m = chars_of("--cta-link has no host: ");
                push_all(&mut m, &rc);
                Err(string_of(&m))
            } else {
                Ok(Some((string_of(&authority), 70)))
            }
        },
    }
}

/// Flags read so far.
pub struct Flags {
    pub content: Option<Seq<char>>,
    pub out: Option<Seq<char>>,
    pub host: Seq<char>,
    pub port: u16,
    pub cta: Seq<char>,
    pub keep: nat,
}

/// The defaults: host `gopher.debene.dev`, port 70, the hub link
/// `gopher://gopher.debene.dev:70`, three snapshots kept.
pub open spec fn default_flags() -> Flags {
    Flags {
        content: None,
        out: None,
        host: "gopher.debene.dev"@,
        port: 70,
        cta: "gopher://gopher.debene.dev:70"@,
        keep: KEEP_SNAPSHOTS as nat,
    }
}

/// The error for a value-taking flag at the end of the arguments.
pub open spec fn needs_value(flag: Seq<char>) -> Seq<char> {
    "flag "@ + flag + " needs a value"@
}

/// Reads the flags in `args` over `st`: `Ok(None)` on `-h`/`--help`, an error
/// on an unknown argument, a missing value or a bad number.
pub open spec fn scan_flags(args: Seq<Seq<char>>, st: Flags) -> Result<Option<Flags>, Seq<char>>
    decreases args.len(),
{
    if args.len() == 0 {
        Ok(Some(st))
    } else {
        let a = args[0];
        let rest = args.drop_first();
        if a == "-h"@ || a == "--help"@ {
            Ok(None)
        } else if a == "--content"@ || a == "--out"@ || a == "--host"@ || a == "--port"@ || a
            == "--cta-link"@ || a == "--keep"@ {
            if rest.len() == 0 {
                Err(needs_value(a))
            } else {
                let v = rest[0];
                let more = rest.drop_first();
                if a == "--content"@ {
                    scan_flags(more, Flags { content: Some(v), ..st })
                } else if a == "--out"@ {
                    scan_flags(more, Flags { out: Some(v), ..st })
                } else if a == "--host"@ {
                    scan_flags(more, Flags { host: v, ..st })
                } else if a == "--port"@ {
                    match parse_unsigned(v, 65535) {
                        Some(p) => scan_flags(more, Flags { port: p as u16, ..st }),
                        None => Err("invalid --port: "@ + v),
                    }
                } else if a == "--cta-link"@ {
                    scan_flags(more, Flags { cta: v, ..st })
                } else {
                    match parse_unsigned(v, usize::MAX as nat) {
                        Some(k) => scan_flags(more, Flags { keep: k, ..st }),
                        None => Err("invalid --keep: "@ + v),
                    }
                }
            }
        } else {
            Err("unknown argument: "@ + a)
        }
    }
}

/// What the command line means: `Ok(None)` when help was asked for; else the
/// configuration, with `--content` and `--out` required and `--cta-link` read
/// by [`cta_link_of`].
pub open spec fn config_of(args: Seq<Seq<char>>) -> Result<Option<ConfigV>, Seq<char>> {
    match scan_flags(args, default_flags()) {
        Err(e) => Err(e),
        Ok(None) => Ok(None),
        Ok(Some(f)) => match f.content {
            None => Err("--content is required"@),
            Some(content) => match f.out {
                None => Err("--out is required"@),
                Some(out) => match cta_link_of(f.cta) {
                    Err(e) => Err(e),
                    Ok(cta_link) => Ok(
                        Some(ConfigV { content, out, host: f.host, port: f.port, cta_link, keep: f.keep }),
                    ),
                },
            },
        },
    }
}

/// The result's value.
pub open spec fn config_result_view(r: Result<Option<Config>, String>) -> Result<Option<ConfigV>, Seq<char>> {
    match r {
        Ok(Some(c)) => Ok(Some(c@)),
        Ok(None) => Ok(None),
        Err(e) => Err(e@),
    }
}

/// A copy of a `String`.
fn copy_string(s: &String) -> (r: String)
    ensures
        r@ == s@,
{
    string_of(&chars_of(s.as_str()))
}

/// `prefix` followed by `s`, as a `String`.
fn message(prefix: &str, s: &[char]) -> (r: String)
    ensures
        r@ == prefix@ + s@,
{
    let mut m = chars_of(prefix);
    push_all(&mut m, s);
    string_of(&m)
}

/// Parses the command-line arguments (program name excluded). `Ok(None)` means
/// help was requested (see [`config_of`]).
pub fn parse_args(args: &Vec<String>) -> (r: Result<Option<Config>, String>)
    ensures
        config_result_view(r) == config_of(args@.map_values(|a: String| a@)),
{
    let ghost av = args@.map_values(|a: String| a@);
    let mut content: Option<String> = None;
    let mut out: Option<String> = None;
    let mut host = string_of(&chars_of("gopher.debene.dev"));
    let mut port: u16 = 70;
    let mut cta_raw = string_of(&chars_of("gopher://gopher.debene.dev:70"));
    let mut keep: usize = KEEP_SNAPSHOTS;
    let mut i: usize = 0;
    assert(av.skip(0) =~= av);
    while i < args.len()
        invariant
            i <= args@.len(),
            av == args@.map_values(|a: String| a@),
            scan_flags(av, default_flags()) == scan_flags(av.skip(i as int), Flags {
                content: match content { Some(c) => Some(c@), None => None },
                out: match out { Some(c) => Some(c@), None => None },
                host: host@,
                port,
                cta: cta_raw@,
                keep: keep as nat,
            }),
        decreases args@.len() - i,
    {
        let ghost cur = av.skip(i as int);
        assert(cur[0] == args@[i as int]@);
        assert(cur.drop_first() =~= av.skip(i + 1));
        let a = chars_of(args[i].as_str());
        if same_text(&a, "-h") || same_text(&a, "--help") {
            return Ok(None);
        }
        let is_content = same_text(&a, "--content");
        let is_out = same_text(&a, "--out");
        let is_host = same_text(&a, "--host");
        let is_port = same_text(&a, "--port");
        let is_cta = same_text(&a, "--cta-link");
        let is_keep = same_text(&a, "--keep");
        if !(is_content || is_out || is_host || is_port || is_cta || is_keep) {
            return Err(message("unknown argument: ", &a));
        }
        if i + 1 >= args.len() {
            let mut m = chars_of("flag ");
            push_all(&mut m, &a);
            push_str(&mut m, " needs a value");
            return Err(string_of(&m));
        }
        let v = copy_string(&args[i + 1]);
        assert(cur.drop_first()[0] == args@[i + 1]@);
        assert(cur.drop_first().drop_first() =~= av.skip(i + 2));
        if is_content {
            content = Some(v);
        } else if is_out {
            out = Some(v);
        } else if is_host {
            host = v;
        } else if is_port {
            let vc = chars_of(v.as_str());
            match parse_unsigned_chars(&vc, 65535) {
                Some(p) => port = p as u16,
                None => return Err(message("invalid --port: ", &vc)),
            }
        } else if is_cta {
            cta_raw = v;
        } else {
            let vc = chars_of(v.as_str());
            match parse_unsigned_chars(&vc, usize::MAX as u64) {
                Some(k) => keep = k as usize,
                None => return Err(message("invalid --keep: ", &vc)),
            }
        }
        i = i + 2;
    }
    assert(av.skip(i as int) =~= seq![]);
    let content = match content {
        Some(c) => c,
        None => return Err(string_of(&chars_of("--content is required"))),
    };
    let out = match out {
        Some(o) => o,
        None => return Err(string_of(&chars_of("--out is required"))),
    };
    let cta_link = match parse_cta_link(cta_raw.as_str()) {
        Ok(c) => c,
        Err(e) => return Err(e),
    };
    Ok(Some(Config { content, out, host, port, cta_link, keep }))
}

/// Law: a hub link written as `gopher://<host>:<port>` reads back as that host
/// and port, for any non-empty host without `:` or `/`.
pub proof fn lemma_cta_roundtrip(host: Seq<char>, port: u16)
    requires
        host.len() > 0,
        !host.contains(':'),
        !host.contains('/'),
    ensures
        cta_link_of("gopher://"@ + host + seq![':'] + decimal(port as nat)) == Ok::<Option<(Seq<char>, u16)>, Seq<char>>(Some((host, port))),
{
    reveal_strlit("gopher://");
    let ds = decimal(port as nat);
    lemma_decimal_digits(port as nat);
    let raw = "gopher://"@ + host + seq![':'] + ds;
    let rest = host + seq![':'] + ds;
    assert(raw.skip("gopher://"@.len() as int) =~= rest);
    assert(raw.take("gopher://"@.len() as int) =~= "gopher://"@);
    assert(!is_none_word(raw));
    assert forall|i: int| 0 <= i < ds.len() implies ds[i] != '/' && ds[i] != ':' by {
        assert(all_digits(ds));
    }
    assert(!rest.contains('/')) by {
        if rest.contains('/') {
            let j = choose|j: int| 0 <= j < rest.len() && rest[j] == '/';
            if j < host.len() {
                assert(host[j] == '/');
            } else if j > host.len() {
                assert(ds[j - host.len() - 1] == '/');
            }
        }
    }
    rest.index_of_first_ensures('/');
    assert(before_first(rest, '/') == rest);
    rest.index_of_last_ensures(':');
    assert(rest[host.len() as int] == ':');
    match rest.index_of_last(':') {
        Some(k) => {
            if k < host.len() {
                assert(host[k] == ':');
            } else if k > host.len() {
                assert(ds[k - host.len() - 1] == ':');
            }
            assert(k == host.len());
        },
        None => {
            assert(rest.contains(':'));
        },
    }
    assert(rest.take(host.len() as int) =~= host);
    assert(rest.skip(host.len() as int + 1) =~= ds);
}

} // verus!
