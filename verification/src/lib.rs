//! CarTunes setup library: parsing of racing-simulator setup exports and an
//! incrementally synchronized, sorted in-memory index of the parsed setups.
//!
//! The library is organized around three pieces:
//! - a permissive document parser that turns a loosely structured HTML export
//!   into a structured [`parser::Setup`] record,
//! - an identifier resolver that maps raw track/car tokens from a document to
//!   canonical display names, and
//! - a tree store plus synchronizer that keeps a `track -> car -> setups`
//!   index sorted and consistent while filesystem events arrive.

pub mod config;
pub mod grid;
pub mod gui;
pub mod markup;
pub mod parser;
pub mod setup;
pub mod str_ext;
pub mod text;
pub mod updates;
