# gopher_blog

A phlog generator: it renders a Hugo blog (`posts/*/index.md` with YAML
frontmatter) into a static gopher tree and publishes it atomically for
geomyidae to serve. The library in `src/` holds the logic, verified with Verus;
`app/` is the command-line program around it (file system, symlinks, clock).

| Module | What it holds |
|---|---|
| `text` | Character-level helpers: white space, words, trimming, decimals, prefixes. |
| `wrap` | Greedy word wrap with first-line and continuation prefixes. |
| `cmark` | The markdown event stream that pulldown-cmark yields, as the renderer reads it. |
| `markdown` | Markdown to 70-column gopher text with a footnote table: a state machine over events. |
| `render` | The daemon-agnostic menu model (`Entry`, `ItemKind`) and host stamping. |
| `publish` | The geomyidae `.gph` serializer and the choice of snapshots to remove. |
| `cli` | Command-line arguments and the `gopher://` back-link. |
| `content` | Frontmatter split, YAML fields (yaml-rust2), dates, posts newest-first. |
| `site` | The published tree: root, posts, tags and series menus, post pages, about page. |

Each module states its behaviour as spec functions over `Seq<char>` and friends;
the executable functions are proved against them, and the laws (wrapping keeps
every word, footnotes numbered in order, code emitted verbatim, tables aligned,
the body kept to 70 columns, escaping read back, snapshots kept, the day
count and epoch seconds of dates) are proof
functions beside them.
