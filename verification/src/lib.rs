//! A small web crawler's verified core: the query language over indexed
//! pages, the bit signatures that index them, and the decisions the crawler
//! makes about links, pages and term counts.

pub mod command;
pub mod crawl;
pub mod index;
pub mod table;
pub mod text;
pub mod unicode;
