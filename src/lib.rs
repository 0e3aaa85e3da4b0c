//! Compact binary persistence for labelled trees with structural sharing.
//!
//! Structurally identical subtrees are numbered identically by a
//! content-addressed numbering engine, and a stream carries the contents of
//! each distinct subtree once, referring to it by number everywhere else.
//!
//! - `varint` and `atom_codec`: the encodings of numbers and of atom text.
//! - `tree`: the nodes being stored, and their content.
//! - `numbering` and `content_hash`: the numbering engine.
//! - `serializer`: writing references and symbol tables, with the bytes each
//!   write produces stated exactly.
//! - `reader_spec` and `deserializer`: what reading a stream yields, and the
//!   reader that yields it.
//! - `round_trip`: reading back what was written gives the same contents.
//! - `symbol`: the records of a symbol table and their flags.
//! - `assertion_class`, `property_class`, `kani_functions`, `harness`,
//!   `install`, `ty_layout` and `text`: names and small types used around
//!   code generation.
use vstd::prelude::*;

pub mod content_hash;
pub mod deserializer;
pub mod error;
pub mod harness;
pub mod install;
pub mod kani_functions;
pub mod assertion_class;
pub mod atom_codec;
pub mod numbering;
pub mod property_class;
pub mod reader_spec;
pub mod round_trip;
pub mod serializer;
pub mod symbol;
pub mod text;
pub mod tree;
pub mod ty_layout;
pub mod varint;
