//! A key/value store whose document is a text of named sections, each a block
//! `(name) {` ... `}` of `name=value` lines.
//!
//! The store, [`store::TNT`], keeps nothing but that text. Every operation
//! takes the lines of the text anew, scans them, and, where it changes
//! anything, makes a whole new text. Reading and writing the file that holds
//! the text is left to the caller.
//!
//! - [`text`] and [`lines`]: characters, and how a text falls into lines.
//! - [`model`]: what each operation means, as functions on texts.
//! - [`scan`]: the integrity check and the search for sections and variables.
//! - [`store`]: the store and its operations.
//! - [`convert`]: the bracketed and the braced form of a document.
//! - [`facts`], [`laws`], [`braced`], [`bracketed`]: what is proved of them.
pub mod braced;
pub mod bracketed;
pub mod convert;
pub mod facts;
pub mod laws;
pub mod lines;
pub mod model;
pub mod scan;
pub mod store;
pub mod text;
