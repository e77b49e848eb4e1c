//! The menu model: daemon-agnostic gopher menu lines. Turning entries into a
//! specific daemon's index format happens in [`crate::publish`].
//!
//! Selectors are the gopher selectors as served from the tree root, i.e. the
//! on-disk paths the publisher writes (`/index.gph`, `/posts/<slug>.txt`, ...).

use vstd::prelude::*;
use crate::text::chars_of;
use crate::text::string_of;

verus! {

/// Gopher item type for a link.
#[derive(Debug, Clone, Copy, PartialEq, Eq)]
pub enum ItemKind {
    /// Gopher type 0.
    Text,
    /// Gopher type 1.
    Menu,
    /// Gopher type h: an external link, selector `URL:<addr>`.
    Url,
    /// Gopher type 9: a binary download.
    Bin,
}

/// One line of a menu: an info line (not selectable) or a link.
///
/// `host`/`port` are `None` for links served from this tree (the serializer
/// then emits the daemon's own placeholders) and `Some` for cross-server links,
/// which advertise a concrete address the client dials directly.
#[derive(Debug, Clone, PartialEq)]
pub enum Entry {
    Info(String),
    Link { kind: ItemKind, display: String, selector: String, host: Option<String>, port: Option<u16> },
}

/// A menu line's value.
pub enum EntryV {
    Info(Seq<char>),
    Link {
        kind: ItemKind,
        display: Seq<char>,
        selector: Seq<char>,
        host: Option<Seq<char>>,
        port: Option<u16>,
    },
}

impl View for Entry {
    type V = EntryV;

    open spec fn view(&self) -> EntryV {
        match self {
            Entry::Info(s) => EntryV::Info(s@),
            Entry::Link { kind, display, selector, host, port } => EntryV::Link {
                kind: *kind,
                display: display@,
                selector: selector@,
                host: match host {
                    Some(h) => Some(h@),
                    None => None,
                },
                port: *port,
            },
        }
    }
}

/// The values of a menu.
pub open spec fn menu_view(es: Seq<Entry>) -> Seq<EntryV> {
    es.map_values(|e: Entry| e@)
}

/// An info (non-selectable) line.
pub fn info(s: String) -> (r: Entry)
    ensures
        r@ == EntryV::Info(s@),
{
    Entry::Info(s)
}

/// A link served from this tree (host and port left to the daemon).
pub fn link(kind: ItemKind, display: String, selector: String) -> (r: Entry)
    ensures
        r@ == (EntryV::Link { kind, display: display@, selector: selector@, host: None, port: None }),
{
    Entry::Link { kind, display, selector, host: None, port: None }
}

/// A link to a different gopher server: the line advertises `host`/`port` so
/// the client opens a fresh connection there.
pub fn link_remote(kind: ItemKind, display: String, selector: String, host: String, port: u16) -> (r: Entry)
    ensures
        r@ == (EntryV::Link {
            kind,
            display: display@,
            selector: selector@,
            host: Some(host@),
            port: Some(port),
        }),
{
    Entry::Link { kind, display, selector, host: Some(host), port: Some(port) }
}

/// A local link (one with no host) stamped with `host`/`port`; any other
/// line as it is.
pub open spec fn stamped(e: EntryV, host: Seq<char>, port: u16) -> EntryV {
    match e {
        EntryV::Link { kind, display, selector, host: None, .. } => EntryV::Link {
            kind,
            display,
            selector,
            host: Some(host),
            port: Some(port),
        },
        _ => e,
    }
}

/// Stamps local links (those with no explicit host) with the tree's own
/// host/port, so generated lines advertise a concrete address. Info lines and
/// links that already carry a host are left untouched.
pub fn with_host(entries: Vec<Entry>, host: &str, port: u16) -> (r: Vec<Entry>)
    ensures
        r@.len() == entries@.len(),
        forall|i: int| 0 <= i < r@.len() ==> #[trigger] r@[i]@ == stamped(entries@[i]@, host@, port),
{
    let mut out: Vec<Entry> = Vec::new();
    let hc = chars_of(host);
    let ghost orig = entries@;
    for e in it: entries
        invariant
            it.seq() == orig,
            out@.len() == it.index(),
            forall|j: int| 0 <= j < out@.len() ==> #[trigger] out@[j]@ == stamped(orig[j]@, host@, port),
            hc@ == host@,
    {
        let stamped_e = match e {
            Entry::Link { kind, display, selector, host: None, .. } => Entry::Link {
                kind,
                display,
                selector,
                host: Some(string_of(&hc)),
                port: Some(port),
            },
            other => other,
        };
        out.push(stamped_e);
    }
    out
}

/// Law: stamping a second time changes nothing.
pub proof fn lemma_stamp_idempotent(e: EntryV, host: Seq<char>, port: u16)
    ensures
        stamped(stamped(e, host, port), host, port) == stamped(e, host, port),
{
}

/// Law: after stamping, every link advertises a concrete host and port, the
/// tree's own for a local link, and a link that carried a host is unchanged.
pub proof fn lemma_stamp_addresses(e: EntryV, host: Seq<char>, port: u16)
    ensures
        e matches EntryV::Link { host: None, .. } ==> stamped(e, host, port) matches EntryV::Link {
            host: Some(h2),
            port: Some(p2),
            ..
        } && h2 == host && p2 == port,
        e matches EntryV::Link { host: Some(_), .. } ==> stamped(e, host, port) == e,
        e is Info ==> stamped(e, host, port) == e,
{
}

} // verus!
