use vstd::prelude::*;

pub mod contracts;
pub mod entities;
pub mod errors;
pub mod frontmatter;
pub mod index;
pub mod lexical;
pub mod patch;
pub mod instant;
pub mod reference;
pub mod related;
pub mod report;
pub mod requests;
pub mod scoring;
pub mod server;
pub mod suggestions;
pub mod tags;
pub mod text;
pub mod watch;
