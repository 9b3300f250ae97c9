//! The sum-type derivation engine: the rules by which an enum's variants map
//! onto the wire model, and the single dispatch that decodes them.
//!
//! A unit variant (no payload) encodes as a bare `S` string holding its wire
//! name.  A variant with fields — named, or positional with keys synthesised
//! as `field_<index>` — encodes as a map of its fields plus one reserved
//! discriminator entry, keyed [`discriminator_key`], whose value is an `S`
//! string holding the variant's wire name.  Decoding dispatches on the wire
//! shape: a string names a unit variant, a map is split into its
//! discriminator and its payload fields, and anything else is an error.
//! Matching the recovered wire name against the type's variants, and
//! decoding the payload fields, remain with the per-type codec.

use crate::error::Error;
use crate::number::{dec_digits, format_u128};
use crate::record::{lookup, remove_key, take_field};
use crate::value::{entry_models_of, lemma_entry_models_of, AttrModel, AttrValue};
use vstd::prelude::*;

verus! {

/// The reserved key of the discriminator entry.  A field that shares this
/// name would shadow the discriminator, so the tagged-variant encoder
/// requires its payload keys to avoid it.
pub open spec fn discriminator_key() -> Seq<char> {
    "dynamo_enum_variant_name"@
}

/// The reserved key of the discriminator entry, as text.
pub fn discriminator() -> (r: &'static str)
    ensures
        r@ == discriminator_key(),
{
    "dynamo_enum_variant_name"
}

/// The two wire shapes an enum value decodes from: a bare wire name (a unit
/// variant), or a wire name with a map of payload fields (a named-fields or
/// positional-fields variant).
#[derive(Debug, PartialEq)]
pub enum VariantForm {
    /// A unit variant's wire name.
    Unit(String),
    /// A tagged variant's wire name and its payload fields, with the
    /// discriminator entry already removed.
    Tagged(String, Vec<(String, AttrValue)>),
}

/// The model of a [`VariantForm`].
pub enum VariantModel {
    Unit(Seq<char>),
    Tagged(Seq<char>, Seq<(Seq<char>, AttrModel)>),
}

impl View for VariantForm {
    type V = VariantModel;

    open spec fn view(&self) -> VariantModel {
        match self {
            VariantForm::Unit(name) => VariantModel::Unit(name@),
            VariantForm::Tagged(name, fields) => VariantModel::Tagged(
                name@,
                entry_models_of(fields@),
            ),
        }
    }
}

/// The model of an encoded unit variant: a bare string.
pub open spec fn unit_variant_model(wire_name: Seq<char>) -> AttrModel {
    AttrModel::S(wire_name)
}

/// The model of an encoded tagged variant: its payload fields plus the
/// discriminator entry.
pub open spec fn tagged_variant_model(
    fields: Seq<(Seq<char>, AttrModel)>,
    wire_name: Seq<char>,
) -> AttrModel {
    AttrModel::M(fields.push((discriminator_key(), AttrModel::S(wire_name))))
}

/// What an attribute value decodes to as an enum: the variant's wire name
/// and payload, or nothing when the shape fits no variant encoding.
pub open spec fn decode_variant_spec(av: AttrModel) -> Option<VariantModel> {
    match av {
        AttrModel::S(s) => Some(VariantModel::Unit(s)),
        AttrModel::M(entries) => match lookup(entries, discriminator_key()) {
            Some(AttrModel::S(tag)) => Some(
                VariantModel::Tagged(tag, remove_key(entries, discriminator_key())),
            ),
            _ => None,
        },
        _ => None,
    }
}

/// Encodes a unit variant: a bare string holding its wire name.
pub fn encode_unit_variant(wire_name: &str) -> (av: AttrValue)
    ensures
        av@ == unit_variant_model(wire_name@),
{
    AttrValue::S(String::from_str(wire_name))
}

/// Encodes a variant with fields: its payload entries plus the discriminator
/// entry carrying its wire name.
pub fn encode_variant_map(fields: Vec<(String, AttrValue)>, wire_name: &str) -> (av: AttrValue)
    ensures
        av@ == tagged_variant_model(entry_models_of(fields@), wire_name@),
{
    let mut entries = fields;
    let ghost before = entries@;
    entries.push((String::from_str(discriminator()), AttrValue::S(String::from_str(wire_name))));
    proof {
        assert(entries@.drop_last() =~= before);
        assert(entry_models_of(entries@) == entry_models_of(entries@.drop_last()).push(
            (entries@.last().0@, entries@.last().1@),
        ));
        assert(entry_models_of(entries@) == entry_models_of(before).push(
            (discriminator_key(), AttrModel::S(wire_name@)),
        ));
    }
    AttrValue::M(entries)
}

/// The diagnostic for a tagged map without a discriminator entry.
pub open spec fn no_discriminator_message() -> Seq<char> {
    "Expected S for dynamo_enum_variant_name, got None"@
}

/// The diagnostic for a discriminator entry that is not a string.
pub open spec fn bad_discriminator_message(got: AttrModel) -> Seq<char> {
    "Expected S for dynamo_enum_variant_name, got "@ + crate::codec::describe_model(got)
}

/// The diagnostic the variant dispatch reports for a wire value that fits no
/// variant encoding.
pub open spec fn variant_error_message(av: AttrModel) -> Seq<char> {
    match av {
        AttrModel::M(entries) => match lookup(entries, discriminator_key()) {
            Some(got) => bad_discriminator_message(got),
            None => no_discriminator_message(),
        },
        other => crate::codec::mismatch_message("S or M"@, other),
    }
}

/// Decodes the variant dispatch of an enum: a string is a unit variant's
/// wire name; a map yields its discriminator's wire name and its payload
/// fields; anything else is an error saying what was found instead.
pub fn decode_variant(av: AttrValue) -> (r: Result<VariantForm, Error>)
    ensures
        match r {
            Ok(form) => decode_variant_spec(av@) == Some(form@),
            Err(e) => decode_variant_spec(av@) is None && (e matches Error::WrongType(m)
                && m@ == variant_error_message(av@)),
        },
{
    match av {
        AttrValue::S(s) => Ok(VariantForm::Unit(s)),
        AttrValue::M(entries) => {
            let mut fields = entries;
            match take_field(&mut fields, discriminator()) {
                Some(AttrValue::S(tag)) => Ok(VariantForm::Tagged(tag, fields)),
                Some(other) => {
                    let mut out = String::from_str("Expected S for dynamo_enum_variant_name, got ");
                    let shown = other.describe();
                    out.append(shown.as_str());
                    proof {
                        assert(out@ =~= bad_discriminator_message(other@));
                    }
                    Err(Error::WrongType(out))
                },
                None => Err(
                    Error::WrongType(
                        String::from_str("Expected S for dynamo_enum_variant_name, got None"),
                    ),
                ),
            }
        },
        other => Err(other.mismatch("S or M")),
    }
}

/// Pushing a fresh key onto a map makes it the one `lookup` finds, and the
/// one `remove_key` takes back out.
pub proof fn lemma_lookup_push(entries: Seq<(Seq<char>, AttrModel)>, k: Seq<char>, v: AttrModel)
    requires
        forall|i: int| 0 <= i < entries.len() ==> (#[trigger] entries[i]).0 != k,
    ensures
        lookup(entries.push((k, v)), k) == Some(v),
        remove_key(entries.push((k, v)), k) == entries,
    decreases entries.len(),
{
    let whole = entries.push((k, v));
    if entries.len() == 0 {
        assert(whole[0] == (k, v));
        assert(whole.drop_first() =~= entries);
    } else {
        assert(whole[0] == entries[0]);
        assert(whole.drop_first() =~= entries.drop_first().push((k, v)));
        assert(forall|i: int|
            0 <= i < entries.drop_first().len() ==> (#[trigger] entries.drop_first()[i]).0
                != k);
        lemma_lookup_push(entries.drop_first(), k, v);
        assert(lookup(whole, k) == lookup(whole.drop_first(), k));
        assert(remove_key(whole, k) == seq![whole[0]] + remove_key(whole.drop_first(), k));
        assert(seq![entries[0]] + entries.drop_first() =~= entries);
    }
}

/// The unit-variant round-trip law: a unit variant encodes as a bare string
/// equal to its (possibly renamed) wire name, and that string decodes back
/// to the same unit form.
pub proof fn lemma_unit_variant_round_trip(wire_name: Seq<char>)
    ensures
        unit_variant_model(wire_name) == AttrModel::S(wire_name),
        decode_variant_spec(unit_variant_model(wire_name)) == Some(
            VariantModel::Unit(wire_name),
        ),
{
}

/// The tagged-variant round-trip law: a variant with fields encodes as a map
/// holding its payload entries and the discriminator keyed by the variant's
/// wire name, and that map decodes back to the same wire name and payload —
/// provided no payload field usurps the reserved discriminator key.
pub proof fn lemma_tagged_variant_round_trip(
    fields: Seq<(Seq<char>, AttrModel)>,
    wire_name: Seq<char>,
)
    requires
        forall|i: int|
            0 <= i < fields.len() ==> (#[trigger] fields[i]).0 != discriminator_key(),
    ensures
        decode_variant_spec(tagged_variant_model(fields, wire_name)) == Some(
            VariantModel::Tagged(wire_name, fields),
        ),
{
    lemma_lookup_push(fields, discriminator_key(), AttrModel::S(wire_name));
}

/// The diagnostic for a wire name that matches none of an enum's variants:
/// it lists the wire names that would have matched.
pub open spec fn unknown_variant_message(
    enum_name: Seq<char>,
    valid_names: Seq<char>,
    tag: Seq<char>,
) -> Seq<char> {
    "Expected variant of enum "@ + enum_name + " (one of "@ + valid_names + "), got "@ + tag
}

/// The error for a wire name that matches none of an enum's variants: a
/// per-type codec reports this when the dispatch hands it a name it does not
/// know, passing the valid wire names for the shape that was met.
pub fn unknown_variant(enum_name: &str, valid_names: &str, tag: &str) -> (r: Error)
    ensures
        r matches Error::WrongType(m) && m@ == unknown_variant_message(
            enum_name@,
            valid_names@,
            tag@,
        ),
{
    let mut out = String::from_str("Expected variant of enum ");
    out.append(enum_name);
    out.append(" (one of ");
    out.append(valid_names);
    out.append("), got ");
    out.append(tag);
    Error::WrongType(out)
}

/// The wire key of a positional field: `field_<index>`.
pub open spec fn positional_key_spec(index: int) -> Seq<char> {
    "field_"@ + dec_digits(index)
}

/// The wire key of a positional field, as text.
pub fn positional_key(index: usize) -> (r: String)
    ensures
        r@ == positional_key_spec(index as int),
{
    let mut out = String::from_str("field_");
    let digits = format_u128(index as u128);
    out.append(digits.as_str());
    out
}

} // verus!
