//! Serialize and deserialize key-value collections as JSON objects even when
//! the key type is not a string.
//!
//! JSON objects only allow string property names. This library turns any
//! key into a property name: a string key is used as the name directly, and
//! every other key is first rendered as canonical JSON text and that text
//! becomes the name. The reverse direction parses each property name back
//! into the original key.
//!
//! Values are modelled by the [`json::Json`] tree, and the JSON text layer
//! itself is part of the library: the printer in [`text`] writes canonical
//! JSON text, the parser in [`parse`] reads standard JSON text, the round
//! trip between them is proved in [`parse_proofs`], and the laws of the key
//! codec are proved in [`laws`].

pub mod any_key_map;
pub mod any_key_vec;
pub mod codec;
pub mod consuming_iter_to_json;
pub mod decode;
pub mod encode;
pub mod json;
pub mod json_map;
pub mod laws;
pub mod json_to_iter;
pub mod json_to_map;
pub mod json_to_vec;
pub mod map_iter_to_json;
pub mod parse;
pub mod parse_proofs;
pub mod text;
pub mod vec_iter_to_json;

mod chars;

pub use codec::{DecodeError, EncodeError, KeyClass};
pub use json::Json;
pub use json_map::JsonMap;
pub use json_to_iter::{JsonToTupleIter, json_to_iter};
pub use json_to_map::json_to_map;
pub use json_to_vec::json_to_vec;
