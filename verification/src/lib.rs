//! WeChat article reading: HTML to structured Markdown, with the decisions
//! around fetching, caching, image naming and output folders.

pub mod text;
pub mod collapse;
pub mod html;
pub mod markdown;
pub mod parser;
pub mod error;
pub mod scraper;
pub mod server;
