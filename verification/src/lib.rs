//! Image file names and paths, and the event transform that turns inline
//! links and fenced code blocks of a Markdown event stream into components.

pub mod images;
pub mod markdown;
