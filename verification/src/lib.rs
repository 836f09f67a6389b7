//! A verified parser for arXiv Atom feeds.
//!
//! The library turns the event stream of an XML feed document into an
//! ordered collection of paper records, and normalizes each record's link
//! into a canonical secure PDF URL.

pub mod records;
pub mod normalize;
pub mod events;
pub mod parser;
pub mod tools;
pub mod laws;
