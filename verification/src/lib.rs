//! A bidirectional codec between typed application values and the tagged
//! attribute-value tree exchanged with a key-value storage wire format.
//!
//! Every type with a codec offers `into_av` (encode into a
//! [`value::AttrValue`]) and `from_av` (decode back, or fail with a precise
//! [`error::Error`]); whole records travel as "items", string-keyed maps of
//! attribute values.  Both directions are specified over the mathematical
//! model [`value::AttrModel`], and every codec proves the round-trip law:
//! decoding an encoded value yields the value again.
//!
//! - [`value`] — the wire value, its model, and well-formedness.
//! - [`error`] — the single error kind every decode failure carries.
//! - [`codec`] — the codec capability ([`codec::IntoAttributeValue`]) and its
//!   laws.
//! - [`number`] — verified decimal formatting and parsing for the `N` variant.
//! - [`primitive`] — booleans, text, fixed-width integers, and the
//!   positive-nonzero integer.
//! - [`container`] — optional values, byte blobs, sequences, and pairs.
//! - [`collections`] — the string set and the string-keyed map.
//! - [`record`] — the field rules a record codec is built from: wire names,
//!   omitted optionals, required-field errors, default recovery.
//! - [`variant`] — the variant rules a sum-type codec is built from: unit,
//!   named-fields, and positional-fields encodings, and the decode dispatch.
//! - [`item`] — the whole-record unit exchanged with the storage client.

pub mod codec;
pub mod collections;
pub mod container;
pub mod error;
pub mod item;
pub mod number;
pub mod primitive;
pub mod record;
pub mod value;
pub mod variant;
