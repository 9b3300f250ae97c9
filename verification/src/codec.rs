//! The codec capability: every type that travels over the wire pairs an
//! `encode` operation (`into_av`) with a `decode` operation (`from_av`), and
//! carries the model-level specification of both.

use crate::error::Error;
use crate::number::dec_digits;
use crate::value::{AttrModel, AttrValue};
use vstd::prelude::*;

verus! {

/// A short rendering of a wire value model: its variant name, with scalar
/// content shown in full and aggregate content summarised by its size.
pub open spec fn describe_model(av: AttrModel) -> Seq<char> {
    match av {
        AttrModel::S(s) => "S("@ + s + ")"@,
        AttrModel::N(n) => "N("@ + n + ")"@,
        AttrModel::Bool(b) => if b {
            "Bool(true)"@
        } else {
            "Bool(false)"@
        },
        AttrModel::B(bytes) => "B(len "@ + dec_digits(bytes.len() as int) + ")"@,
        AttrModel::Null => "Null"@,
        AttrModel::L(items) => "L(len "@ + dec_digits(items.len() as int) + ")"@,
        AttrModel::M(entries) => "M(len "@ + dec_digits(entries.len() as int) + ")"@,
        AttrModel::Ss(members) => "Ss(len "@ + dec_digits(members.len() as int) + ")"@,
    }
}

/// The diagnostic for a shape mismatch: the expected wire variant, then the
/// value actually received.
pub open spec fn mismatch_message(expected: Seq<char>, got: AttrModel) -> Seq<char> {
    "Expected "@ + expected + ", got "@ + describe_model(got)
}

impl AttrValue {
    /// Renders this value as [`describe_model`] does its model.
    pub fn describe(&self) -> (r: String)
        ensures
            r@ == describe_model(self@),
    {
        match self {
            AttrValue::S(s) => {
                let mut out = String::from_str("S(");
                out.append(s.as_str());
                out.append(")");
                out
            },
            AttrValue::N(n) => {
                let mut out = String::from_str("N(");
                out.append(n.as_str());
                out.append(")");
                out
            },
            AttrValue::Bool(b) => {
                if *b {
                    String::from_str("Bool(true)")
                } else {
                    String::from_str("Bool(false)")
                }
            },
            AttrValue::B(bytes) => {
                let mut out = String::from_str("B(len ");
                let text = crate::number::format_u128(bytes.len() as u128);
                out.append(text.as_str());
                out.append(")");
                out
            },
            AttrValue::Null => String::from_str("Null"),
            AttrValue::L(items) => {
                let mut out = String::from_str("L(len ");
                let text = crate::number::format_u128(items.len() as u128);
                out.append(text.as_str());
                out.append(")");
                proof {
                    crate::value::lemma_models_of(items@);
                }
                out
            },
            AttrValue::M(entries) => {
                let mut out = String::from_str("M(len ");
                let text = crate::number::format_u128(entries.len() as u128);
                out.append(text.as_str());
                out.append(")");
                proof {
                    crate::value::lemma_entry_models_of(entries@);
                }
                out
            },
            AttrValue::Ss(members) => {
                let mut out = String::from_str("Ss(len ");
                let text = crate::number::format_u128(members.len() as u128);
                out.append(text.as_str());
                out.append(")");
                out
            },
        }
    }

    /// The error for a value whose shape does not match the expected wire
    /// variant.
    pub fn mismatch(self, expected: &str) -> (r: Error)
        ensures
            r matches Error::WrongType(m) && m@ == mismatch_message(expected@, self@),
    {
        let mut out = String::from_str("Expected ");
        out.append(expected);
        out.append(", got ");
        let shown = self.describe();
        out.append(shown.as_str());
        Error::WrongType(out)
    }
}

/// The codec capability for a type `T`: `into_av` encodes a `T` into a wire
/// attribute value, `from_av` decodes one back or fails with an [`Error`].
/// Both directions are pinned to the model level by `encode_spec` and
/// `decode_spec`, and every implementation proves the round-trip law.
pub trait IntoAttributeValue: DeepView + Sized {
    /// The type's own invariant, at the model level.  `true` for most types;
    /// a string-keyed map requires unique keys, a string set distinct
    /// members, a positive integer a non-zero value.
    spec fn valid(v: Self::V) -> bool;

    /// The values whose encoding decodes back to themselves.  `true` except
    /// where the wire format is deliberately lossy: an optional value whose
    /// payload itself encodes as Null (for example an empty string set)
    /// cannot be told apart from an absent one.
    spec fn lossless(v: Self::V) -> bool;

    /// The model of the wire value that encoding `v` produces.
    spec fn encode_spec(v: Self::V) -> AttrModel;

    /// The value a wire model decodes to: `Some` exactly on the models this
    /// type accepts.
    spec fn decode_spec(av: AttrModel) -> Option<Self::V>;

    /// Encoding a valid value produces a well-formed wire value.
    proof fn lemma_encode_wf(v: Self::V)
        requires
            Self::valid(v),
        ensures
            Self::encode_spec(v).wf(),
    ;

    /// The round-trip law: decoding an encoded value yields the value again.
    proof fn lemma_round_trip(v: Self::V)
        requires
            Self::valid(v),
            Self::lossless(v),
        ensures
            Self::decode_spec(Self::encode_spec(v)) == Some(v),
    ;

    /// Encodes `self` into a wire attribute value.
    fn into_av(self) -> (av: AttrValue)
        requires
            Self::valid(self.deep_view()),
        ensures
            av@ == Self::encode_spec(self.deep_view()),
    ;

    /// Decodes a well-formed wire attribute value, or reports exactly why it
    /// cannot be.
    fn from_av(av: AttrValue) -> (r: Result<Self, Error>)
        requires
            av@.wf(),
        ensures
            match r {
                Ok(v) => Self::decode_spec(av@) == Some(v.deep_view()) && Self::valid(
                    v.deep_view(),
                ),
                Err(_) => Self::decode_spec(av@) is None,
            },
    ;
}

/// The models of the encodings of a sequence of values, in order.
pub open spec fn encode_seq<T: IntoAttributeValue>(v: Seq<T::V>) -> Seq<AttrModel> {
    v.map_values(|x: T::V| T::encode_spec(x))
}

/// The decoded values of a sequence of wire models: `Some` exactly when
/// every element decodes.
pub open spec fn decode_seq<T: IntoAttributeValue>(items: Seq<AttrModel>) -> Option<Seq<T::V>>
    decreases items.len(),
{
    if items.len() == 0 {
        Some(Seq::empty())
    } else {
        match (decode_seq::<T>(items.drop_last()), T::decode_spec(items.last())) {
            (Some(init), Some(x)) => Some(init.push(x)),
            _ => None,
        }
    }
}

/// `decode_seq` is the pointwise decoding: it succeeds exactly when every
/// element decodes, and then yields the elements' decodings in order.
pub proof fn lemma_decode_seq<T: IntoAttributeValue>(items: Seq<AttrModel>)
    ensures
        decode_seq::<T>(items) matches Some(vs) ==> vs.len() == items.len() && forall|i: int|
            0 <= i < items.len() ==> T::decode_spec(#[trigger] items[i]) == Some(vs[i]),
        (forall|i: int| 0 <= i < items.len() ==> T::decode_spec(#[trigger] items[i]) is Some)
            ==> decode_seq::<T>(items) is Some,
    decreases items.len(),
{
    if items.len() > 0 {
        lemma_decode_seq::<T>(items.drop_last());
        assert(decode_seq::<T>(items) == (match (
            decode_seq::<T>(items.drop_last()),
            T::decode_spec(items.last()),
        ) {
            (Some(init), Some(x)) => Some(init.push(x)),
            _ => Option::<Seq<T::V>>::None,
        }));
        assert(forall|i: int|
            0 <= i < items.len() - 1 ==> #[trigger] items.drop_last()[i] == items[i]);
        if decode_seq::<T>(items) is Some {
            let vs = decode_seq::<T>(items)->0;
            let init = decode_seq::<T>(items.drop_last())->0;
            assert forall|i: int|
                0 <= i < items.len() implies T::decode_spec(#[trigger] items[i]) == Some(
                vs[i],
            ) by {
                if i < items.len() - 1 {
                    assert(T::decode_spec(items.drop_last()[i]) == Some(init[i]));
                    assert(vs[i] == init[i]);
                } else {
                    assert(items[i] == items.last());
                }
            }
        }
    }
}

/// Encoding valid values gives well-formed models, pointwise.
pub proof fn lemma_encode_seq_wf<T: IntoAttributeValue>(v: Seq<T::V>)
    requires
        forall|i: int| 0 <= i < v.len() ==> T::valid(#[trigger] v[i]),
    ensures
        encode_seq::<T>(v).len() == v.len(),
        forall|i: int| 0 <= i < v.len() ==> (#[trigger] encode_seq::<T>(v)[i]) == T::encode_spec(
            v[i],
        ) && encode_seq::<T>(v)[i].wf(),
{
    assert forall|i: int|
        0 <= i < v.len() implies (#[trigger] encode_seq::<T>(v)[i]) == T::encode_spec(v[i])
        && encode_seq::<T>(v)[i].wf() by {
        T::lemma_encode_wf(v[i]);
    }
}

/// The round-trip law over sequences: decoding the encodings of valid,
/// lossless values yields the values again, in order.
pub proof fn lemma_seq_round_trip<T: IntoAttributeValue>(v: Seq<T::V>)
    requires
        forall|i: int| 0 <= i < v.len() ==> T::valid(#[trigger] v[i]),
        forall|i: int| 0 <= i < v.len() ==> T::lossless(#[trigger] v[i]),
    ensures
        decode_seq::<T>(encode_seq::<T>(v)) == Some(v),
    decreases v.len(),
{
    let enc = encode_seq::<T>(v);
    if v.len() == 0 {
        assert(enc =~= Seq::<AttrModel>::empty());
        assert(decode_seq::<T>(enc) == Some(Seq::<T::V>::empty()));
        assert(Seq::<T::V>::empty() =~= v);
    } else {
        assert(forall|i: int|
            0 <= i < v.len() - 1 ==> #[trigger] v.drop_last()[i] == v[i]);
        lemma_seq_round_trip::<T>(v.drop_last());
        T::lemma_round_trip(v.last());
        assert(enc.drop_last() =~= encode_seq::<T>(v.drop_last()));
        assert(enc.last() == T::encode_spec(v.last()));
        assert(decode_seq::<T>(enc) == (match (
            decode_seq::<T>(enc.drop_last()),
            T::decode_spec(enc.last()),
        ) {
            (Some(init), Some(x)) => Some(init.push(x)),
            _ => Option::<Seq<T::V>>::None,
        }));
        assert(v.drop_last().push(v.last()) =~= v);
    }
}

/// The capability of a type whose value may be recovered when its wire key
/// is absent: a `default`-attributed field of such a type decodes to
/// `default_value()` instead of failing.
pub trait WithDefault: DeepView + Sized {
    /// The model of the default value.
    spec fn default_spec() -> Self::V;

    /// The default value itself.
    fn default_value() -> (r: Self)
        ensures
            r.deep_view() == Self::default_spec(),
    ;
}

/// The round-trip law over any codec: for every valid, lossless value,
/// decoding its encoding yields the value again.
pub proof fn lemma_codec_round_trip<T: IntoAttributeValue>(v: T::V)
    requires
        T::valid(v),
        T::lossless(v),
    ensures
        T::decode_spec(T::encode_spec(v)) == Some(v),
{
    T::lemma_round_trip(v);
}

} // verus!
