//! Markdown: sections, links and front matter.

pub mod counts;
pub mod events;
pub mod extract;
pub mod files;
pub mod frontmatter;
pub mod linklaw;
pub mod links;
pub mod offsets;
pub mod query;
pub mod querylaw;
pub mod relative;
pub mod resolve;
pub mod rewritelaw;
pub mod sectionlaw;
pub mod wikilaw;
pub mod yaml;
pub mod yamllaw;

pub use extract::{extract, find_section, parse_yaml, MarkdownExtractor};
pub use frontmatter::split_frontmatter;
