//! The item capability: a whole record travels to the storage layer as an
//! "item", a string-keyed mapping of wire attribute values, and comes back
//! from it the same way.  This is the only unit exchanged with the external
//! storage client.

use crate::codec::IntoAttributeValue;
use crate::error::Error;
use crate::value::{entry_models_of, AttrModel, AttrValue};
use vstd::prelude::*;

verus! {

/// The codec of a whole record against the item representation.  `into_item`
/// spreads the record over a string-keyed mapping of wire attribute values;
/// `from_item` rebuilds the record from one, or fails with an [`Error`].
pub trait IntoDynamoItem: DeepView + Sized {
    /// The record's own invariant, at the model level.
    spec fn item_valid(v: Self::V) -> bool;

    /// The records whose item decodes back to themselves; see
    /// [`IntoAttributeValue::lossless`].
    spec fn item_lossless(v: Self::V) -> bool;

    /// The model of the item that encoding `v` produces.
    spec fn encode_item_spec(v: Self::V) -> Seq<(Seq<char>, AttrModel)>;

    /// The record an item model decodes to: `Some` exactly on the items this
    /// type accepts.
    spec fn decode_item_spec(item: Seq<(Seq<char>, AttrModel)>) -> Option<Self::V>;

    /// Encoding a valid record produces a well-formed item.
    proof fn lemma_item_encode_wf(v: Self::V)
        requires
            Self::item_valid(v),
        ensures
            AttrModel::M(Self::encode_item_spec(v)).wf(),
    ;

    /// The item round-trip law: decoding an encoded record yields the record
    /// again.
    proof fn lemma_item_round_trip(v: Self::V)
        requires
            Self::item_valid(v),
            Self::item_lossless(v),
        ensures
            Self::decode_item_spec(Self::encode_item_spec(v)) == Some(v),
    ;

    /// Encodes `self` into an item.
    fn into_item(self) -> (item: Vec<(String, AttrValue)>)
        requires
            Self::item_valid(self.deep_view()),
        ensures
            entry_models_of(item@) == Self::encode_item_spec(self.deep_view()),
    ;

    /// Decodes a well-formed item, or reports exactly why it cannot be.
    fn from_item(item: Vec<(String, AttrValue)>) -> (r: Result<Self, Error>)
        requires
            AttrModel::M(entry_models_of(item@)).wf(),
        ensures
            match r {
                Ok(v) => Self::decode_item_spec(entry_models_of(item@)) == Some(v.deep_view())
                    && Self::item_valid(v.deep_view()),
                Err(_) => Self::decode_item_spec(entry_models_of(item@)) is None,
            },
    ;
}

} // verus!
