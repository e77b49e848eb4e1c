//! A phlog generator's core: markdown to gopher text, frontmatter parsing,
//! gopher menu models and their `.gph` serialization.

pub mod text;
pub mod cmark;
pub mod wrap;
pub mod markdown;
pub mod render;
pub mod publish;
pub mod cli;
pub mod content;
pub mod site;
