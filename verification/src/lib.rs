//! Comparison of two MusicXML scores, measure by measure and note by note.
//!
//! `types` holds the score model, `xml` a plain element tree, `parse` reads a
//! score out of such a tree, `document` reads the tree out of the bytes of a
//! document, `lcs` the longest-common-subsequence theory, `diff` the
//! comparison itself and `render` the coloured result tree.
#![allow(non_snake_case)]
#![allow(non_camel_case_types)]

pub mod types;
pub mod xml;
pub mod parse;
pub mod document;
pub mod lcs;
pub mod diff;
pub mod diff_laws;
pub mod table_laws;
pub mod render;
