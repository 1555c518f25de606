//! Conversion between integers and their English names, in both directions,
//! tolerant of small spelling mistakes in the names.
//!
//! The entry points are in [`to`]: `string` names an integer, `integer`
//! reads a name, and `string_decimal` and `decimal` do the same for numbers
//! with digits after a point. Each of them works on the English
//! [`lexicon::Lexicon`]; the methods of a lexicon do the work for any other.
//!
//! A name is read token by token. A token within one edit of a number word
//! is taken for that word ([`matcher`], [`distance`]), and the words are
//! folded into a number scale by scale ([`parse`]). What is proved of the
//! two directions together is in [`laws`], and of the English lexicon in
//! [`english`].

pub mod decimal;
pub mod distance;
pub mod english;
pub mod format;
pub mod laws;
pub mod lexicon;
pub mod matcher;
pub mod parse;
pub mod plain;
pub mod text;
pub mod to;
