//! The read path: a recursive-descent scanner for the closed schema set,
//! attribute decoders, per-type decode routines and the dispatch trait that
//! binds a byte stream to them.

pub mod attributes;
pub mod comment_extended;
pub mod comments_extended;
pub mod div;
pub mod from_xml;
pub mod scan;
pub mod web_settings;
