//! The core of a Markdown notebook: notes, their metadata, the index built
//! over them, search, and the plans that keep two copies of a vault level.

pub mod bm25;
pub mod config;
pub mod date;
pub mod frontmatter;
pub mod http;
pub mod index;
pub mod markdown;
pub mod note;
pub mod notebook;
pub mod notes;
pub mod ordered;
pub mod paths;
pub mod ranked;
pub mod scan;
pub mod search;
pub mod semantic;
pub mod server;
pub mod sync;
pub mod text;
pub mod tree;
pub mod vault;
