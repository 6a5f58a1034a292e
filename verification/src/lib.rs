//! Semantic PDF diffing: the verified parsing core.
//!
//! The modules below parse the byte-level structure of digitally generated
//! PDF files (headers, primitives, indirect objects, cross-reference data,
//! page trees, tagged structure trees, font resources and ToUnicode maps)
//! and expose it as plain data for the reporting front end.

pub mod bytes;
pub mod chars;
pub mod cmap;
pub mod content;
pub mod corpus;
pub mod fmt;
pub mod features;
pub mod filters;
pub mod image;
pub mod inspect;
pub mod fonts;
pub mod laws;
pub mod lexer;
pub mod primitive;
pub mod report;
pub mod review;
pub mod runs;
pub mod stream;
pub mod surfaces;
pub mod signature;
pub mod object;
pub mod xref;
pub mod objstm;
pub mod store;
pub mod syntax;
pub mod synthetic;
pub mod scan;
pub mod semantic;
pub mod pages;
pub mod diffing;
pub mod document;
pub mod extract;
pub mod tagged;
pub mod textdiff;
pub mod textscan;
pub mod types;
pub mod utf8text;
