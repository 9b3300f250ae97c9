//! The record derivation engine: the rules by which a record type's fields
//! map onto a string-keyed wire map.
//!
//! Encoding writes one entry per field under the field's wire name (its
//! identifier, or its declared rename); a field of optional type that holds
//! no value is omitted entirely.  Decoding takes each field's entry out of
//! the map by its wire name; an absent entry fails with an error naming the
//! field, unless the field is of optional type (absence decodes to no value)
//! or was declared `default` (absence decodes to the type's default value).
//! A record codec built from these functions applies them field by field,
//! exactly as a hand-written implementation of [`IntoAttributeValue`] would.

use crate::codec::{IntoAttributeValue, WithDefault};
use crate::error::Error;
use crate::primitive::str_eq;
use crate::value::{
    entry_keys, entry_models_of, lemma_entry_models_of, lemma_wf_entry_values, unique_keys,
    wf_entry_values, AttrModel, AttrValue,
};
use vstd::prelude::*;

verus! {

broadcast use vstd::std_specs::vec::group_vec_axioms;

/// The value under the first entry with key `k`, if any.
pub open spec fn lookup(entries: Seq<(Seq<char>, AttrModel)>, k: Seq<char>) -> Option<AttrModel>
    decreases entries.len(),
{
    if entries.len() == 0 {
        None
    } else if entries[0].0 == k {
        Some(entries[0].1)
    } else {
        lookup(entries.drop_first(), k)
    }
}

/// The entries with the first `k`-keyed entry removed.
pub open spec fn remove_key(entries: Seq<(Seq<char>, AttrModel)>, k: Seq<char>) -> Seq<
    (Seq<char>, AttrModel),
>
    decreases entries.len(),
{
    if entries.len() == 0 {
        entries
    } else if entries[0].0 == k {
        entries.drop_first()
    } else {
        seq![entries[0]] + remove_key(entries.drop_first(), k)
    }
}

/// Skipping a `k`-free prefix changes neither what `lookup` finds nor what
/// `remove_key` keeps of the rest.
proof fn lemma_lookup_skip(entries: Seq<(Seq<char>, AttrModel)>, k: Seq<char>, n: int)
    requires
        0 <= n <= entries.len(),
        forall|i: int| 0 <= i < n ==> (#[trigger] entries[i]).0 != k,
    ensures
        lookup(entries, k) == lookup(entries.skip(n), k),
        remove_key(entries, k) == entries.take(n) + remove_key(entries.skip(n), k),
    decreases n,
{
    if n == 0 {
        assert(entries.skip(0) =~= entries);
        assert(entries.take(0) + remove_key(entries, k) =~= remove_key(entries, k));
    } else {
        assert(lookup(entries, k) == lookup(entries.drop_first(), k));
        assert(remove_key(entries, k) == seq![entries[0]] + remove_key(
            entries.drop_first(),
            k,
        ));
        assert(forall|i: int|
            0 <= i < n - 1 ==> (#[trigger] entries.drop_first()[i]).0 != k);
        lemma_lookup_skip(entries.drop_first(), k, n - 1);
        assert(entries.drop_first().skip(n - 1) =~= entries.skip(n));
        assert(seq![entries[0]] + (entries.drop_first().take(n - 1) + remove_key(
            entries.skip(n),
            k,
        )) =~= entries.take(n) + remove_key(entries.skip(n), k));
    }
}

/// Takes the first `name`-keyed entry out of the map, handing its value
/// back; the map keeps its other entries in order.
pub fn take_field(map: &mut Vec<(String, AttrValue)>, name: &str) -> (r: Option<AttrValue>)
    ensures
        entry_models_of(final(map)@) == remove_key(entry_models_of(old(map)@), name@),
        match r {
            Some(av) => lookup(entry_models_of(old(map)@), name@) == Some(av@),
            None => lookup(entry_models_of(old(map)@), name@) is None,
        },
{
    let ghost entries = entry_models_of(map@);
    proof {
        lemma_entry_models_of(map@);
    }
    let mut i: usize = 0;
    while i < map.len()
        invariant
            map@ == old(map)@,
            entries == entry_models_of(map@),
            entries.len() == map@.len(),
            forall|j: int|
                0 <= j < map@.len() ==> #[trigger] entries[j] == (map@[j].0@, map@[j].1@),
            i <= map@.len(),
            forall|j: int| 0 <= j < i ==> (#[trigger] entries[j]).0 != name@,
        decreases map@.len() - i,
    {
        let hit = str_eq(map[i].0.as_str(), name);
        if hit {
            proof {
                lemma_lookup_skip(entries, name@, i as int);
                assert(entries.skip(i as int)[0] == entries[i as int]);
                assert(lookup(entries.skip(i as int), name@) == Some(entries[i as int].1));
                assert(remove_key(entries.skip(i as int), name@) =~= entries.skip(i + 1));
                assert(entries.take(i as int) + entries.skip(i + 1) =~= entries.remove(
                    i as int,
                ));
            }
            let entry = map.remove(i);
            proof {
                lemma_entry_models_of(map@);
                assert(forall|j: int|
                    0 <= j < map@.len() ==> #[trigger] map@[j] == old(map)@.remove(i as int)[j]);
                assert(entry_models_of(map@) =~= entries.remove(i as int));
            }
            return Some(entry.1);
        }
        i = i + 1;
    }
    proof {
        lemma_lookup_skip(entries, name@, entries.len() as int);
        assert(entries.skip(entries.len() as int) =~= Seq::<(Seq<char>, AttrModel)>::empty());
        assert(entries.take(entries.len() as int) =~= entries);
        assert(entries + remove_key(Seq::<(Seq<char>, AttrModel)>::empty(), name@) =~= entries);
    }
    None
}

/// The diagnostic for a required field whose wire key is absent.
pub open spec fn missing_field_message(name: Seq<char>) -> Seq<char> {
    "Missing field "@ + name
}

/// The error for a required field whose wire key is absent: its message
/// names the field.
pub fn missing_field(name: &str) -> (r: Error)
    ensures
        r matches Error::WrongType(m) && m@ == missing_field_message(name@),
{
    let mut out = String::from_str("Missing field ");
    out.append(name);
    Error::WrongType(out)
}

/// Takes a required field's entry out of the map, or fails with an error
/// naming the field.
pub fn require_field(map: &mut Vec<(String, AttrValue)>, name: &str) -> (r: Result<
    AttrValue,
    Error,
>)
    ensures
        entry_models_of(final(map)@) == remove_key(entry_models_of(old(map)@), name@),
        match r {
            Ok(av) => lookup(entry_models_of(old(map)@), name@) == Some(av@),
            Err(e) => lookup(entry_models_of(old(map)@), name@) is None && (e matches
            Error::WrongType(m) && m@ == missing_field_message(name@)),
        },
{
    match take_field(map, name) {
        Some(av) => Ok(av),
        None => Err(missing_field(name)),
    }
}

/// Taking a key out of a map of well-formed values leaves well-formed
/// values, and the value found (if any) is well-formed.
pub proof fn lemma_remove_key_wf(entries: Seq<(Seq<char>, AttrModel)>, k: Seq<char>)
    requires
        wf_entry_values(entries),
    ensures
        wf_entry_values(remove_key(entries, k)),
        lookup(entries, k) matches Some(av) ==> av.wf(),
    decreases entries.len(),
{
    lemma_wf_entry_values(entries);
    if entries.len() > 0 {
        let rest = entries.drop_first();
        assert(forall|i: int| 0 <= i < rest.len() ==> #[trigger] rest[i] == entries[i + 1]);
        lemma_wf_entry_values(rest);
        if entries[0].0 == k {
            assert(remove_key(entries, k) == rest);
            assert(lookup(entries, k) == Some(entries[0].1));
        } else {
            lemma_remove_key_wf(rest, k);
            let out = seq![entries[0]] + remove_key(rest, k);
            assert(remove_key(entries, k) == out);
            lemma_wf_entry_values(remove_key(rest, k));
            assert forall|i: int|
                0 <= i < out.len() implies (#[trigger] out[i].1).wf() by {
                if i > 0 {
                    assert(out[i] == remove_key(rest, k)[i - 1]);
                }
            }
            lemma_wf_entry_values(out);
        }
    }
}

/// Taking one key out never disturbs another: looking up a different key
/// afterwards finds what it found before.
pub proof fn lemma_remove_other_key(
    entries: Seq<(Seq<char>, AttrModel)>,
    removed: Seq<char>,
    k: Seq<char>,
)
    requires
        removed != k,
    ensures
        lookup(remove_key(entries, removed), k) == lookup(entries, k),
    decreases entries.len(),
{
    if entries.len() > 0 {
        let rest = entries.drop_first();
        if entries[0].0 == removed {
            assert(remove_key(entries, removed) == rest);
            assert(lookup(entries, k) == lookup(rest, k));
        } else if entries[0].0 == k {
            let out = seq![entries[0]] + remove_key(rest, removed);
            assert(remove_key(entries, removed) == out);
            assert(out[0] == entries[0]);
            assert(lookup(out, k) == Some(out[0].1));
        } else {
            lemma_remove_other_key(rest, removed, k);
            let out = seq![entries[0]] + remove_key(rest, removed);
            assert(remove_key(entries, removed) == out);
            assert(out[0] == entries[0]);
            assert(out.drop_first() =~= remove_key(rest, removed));
            assert(lookup(out, k) == lookup(remove_key(rest, removed), k));
        }
    }
}

/// Taking a key out of a map with unique keys leaves unique keys.
pub proof fn lemma_remove_key_unique(entries: Seq<(Seq<char>, AttrModel)>, k: Seq<char>)
    requires
        unique_keys(entries),
    ensures
        unique_keys(remove_key(entries, k)),
    decreases entries.len(),
{
    if entries.len() > 0 {
        let rest = entries.drop_first();
        assert(forall|i: int| 0 <= i < rest.len() ==> #[trigger] rest[i] == entries[i + 1]);
        if entries[0].0 == k {
            assert(remove_key(entries, k) == rest);
        } else {
            lemma_remove_key_unique(rest, k);
            let out = seq![entries[0]] + remove_key(rest, k);
            assert(remove_key(entries, k) == out);
            lemma_remove_key_sub(rest, k);
            assert forall|i: int, j: int|
                0 <= i < j < out.len() implies out[i].0 != out[j].0 by {
                if i == 0 {
                    assert(out[j] == remove_key(rest, k)[j - 1]);
                    assert(comes_from(rest, k, j - 1));
                    let at = choose|at: int| #[trigger] remove_key_origin(rest, k, j - 1, at);
                    assert(remove_key_origin(rest, k, j - 1, at));
                } else {
                    assert(out[i] == remove_key(rest, k)[i - 1]);
                    assert(out[j] == remove_key(rest, k)[j - 1]);
                }
            }
        }
    }
}

/// Position `i` of `remove_key(entries, k)` carries an entry of `entries`.
spec fn comes_from(entries: Seq<(Seq<char>, AttrModel)>, k: Seq<char>, i: int) -> bool {
    exists|at: int| #[trigger] remove_key_origin(entries, k, i, at)
}

/// Whether position `at` of `entries` accounts for position `i` of
/// `remove_key(entries, k)`.
spec fn remove_key_origin(
    entries: Seq<(Seq<char>, AttrModel)>,
    k: Seq<char>,
    i: int,
    at: int,
) -> bool {
    &&& 0 <= at < entries.len()
    &&& remove_key(entries, k)[i] == entries[at]
}

/// Every entry that survives `remove_key` comes from the original map.
proof fn lemma_remove_key_sub(entries: Seq<(Seq<char>, AttrModel)>, k: Seq<char>)
    ensures
        remove_key(entries, k).len() >= entries.len() - 1,
        remove_key(entries, k).len() <= entries.len(),
        forall|i: int|
            0 <= i < remove_key(entries, k).len() ==> #[trigger] comes_from(entries, k, i),
    decreases entries.len(),
{
    assert(remove_key(entries, k) == (if entries.len() == 0 {
        entries
    } else if entries[0].0 == k {
        entries.drop_first()
    } else {
        seq![entries[0]] + remove_key(entries.drop_first(), k)
    }));
    if entries.len() > 0 {
        let rest = entries.drop_first();
        lemma_remove_key_sub(rest, k);
        if entries[0].0 == k {
            assert(remove_key(entries, k) == rest);
            assert forall|i: int|
                0 <= i < remove_key(entries, k).len() implies #[trigger] comes_from(
                entries,
                k,
                i,
            ) by {
                assert(remove_key(entries, k)[i] == entries[i + 1]);
                assert(remove_key_origin(entries, k, i, i + 1));
            }
        } else {
            let out = seq![entries[0]] + remove_key(rest, k);
            assert(remove_key(entries, k) == out);
            assert forall|i: int|
                0 <= i < remove_key(entries, k).len() implies #[trigger] comes_from(
                entries,
                k,
                i,
            ) by {
                if i == 0 {
                    assert(remove_key(entries, k)[0] == entries[0]);
                    assert(remove_key_origin(entries, k, 0, 0));
                } else {
                    assert(remove_key(entries, k)[i] == remove_key(rest, k)[i - 1]);
                    assert(comes_from(rest, k, i - 1));
                    let at = choose|at: int| #[trigger] remove_key_origin(rest, k, i - 1, at);
                    assert(remove_key_origin(rest, k, i - 1, at));
                    assert(rest[at] == entries[at + 1]);
                    assert(remove_key_origin(entries, k, i, at + 1));
                }
            }
        }
    }
}

/// The record round-trip law: in a map with unique wire names — as every
/// record encoder produces — looking a field's name up finds exactly the
/// value that was encoded under it, whichever field it is.
pub proof fn lemma_record_field_recovery(entries: Seq<(Seq<char>, AttrModel)>, i: int)
    requires
        unique_keys(entries),
        0 <= i < entries.len(),
    ensures
        lookup(entries, entries[i].0) == Some(entries[i].1),
    decreases entries.len(),
{
    if i > 0 {
        let rest = entries.drop_first();
        assert(forall|j: int| 0 <= j < rest.len() ==> #[trigger] rest[j] == entries[j + 1]);
        assert(entries[0].0 != entries[i].0);
        lemma_record_field_recovery(rest, i - 1);
    }
}

/// The map after taking a run of keys out, first to last.
pub open spec fn remove_keys(
    entries: Seq<(Seq<char>, AttrModel)>,
    keys: Seq<Seq<char>>,
) -> Seq<(Seq<char>, AttrModel)>
    decreases keys.len(),
{
    if keys.len() == 0 {
        entries
    } else {
        remove_keys(remove_key(entries, keys[0]), keys.drop_first())
    }
}

/// Decoding a record runs front to back: taking the first `i` wire names out
/// of a freshly encoded map, in encoding order, leaves exactly the entries
/// after the `i`-th.
pub proof fn lemma_remove_keys_prefix(entries: Seq<(Seq<char>, AttrModel)>, i: int)
    requires
        unique_keys(entries),
        0 <= i <= entries.len(),
    ensures
        remove_keys(entries, entry_keys(entries).take(i)) == entries.skip(i),
    decreases i,
{
    let keys = entry_keys(entries);
    if i == 0 {
        assert(keys.take(0) =~= Seq::<Seq<char>>::empty());
        assert(remove_keys(entries, keys.take(0)) == entries);
        assert(entries.skip(0) =~= entries);
    } else {
        let rest = entries.drop_first();
        assert(keys.take(i)[0] == entries[0].0);
        assert(remove_key(entries, entries[0].0) == rest);
        assert(remove_keys(entries, keys.take(i)) == remove_keys(
            rest,
            keys.take(i).drop_first(),
        ));
        assert(forall|j: int| 0 <= j < rest.len() ==> #[trigger] rest[j] == entries[j + 1]);
        assert(keys.take(i).drop_first() =~= entry_keys(rest).take(i - 1));
        lemma_remove_keys_prefix(rest, i - 1);
        assert(rest.skip(i - 1) =~= entries.skip(i));
    }
}

/// The record round-trip law: in a map freshly encoded from a record's
/// fields — whose wire names are unique — decoding the fields in encoding
/// order finds, for each field in turn, exactly the value that was encoded
/// under its name.  With each field type's own round-trip law this recovers
/// the whole record.
pub proof fn lemma_record_round_trip(entries: Seq<(Seq<char>, AttrModel)>, i: int)
    requires
        unique_keys(entries),
        0 <= i < entries.len(),
    ensures
        lookup(remove_keys(entries, entry_keys(entries).take(i)), entries[i].0) == Some(
            entries[i].1,
        ),
{
    lemma_remove_keys_prefix(entries, i);
    let tail = entries.skip(i);
    assert(forall|j: int| 0 <= j < tail.len() ==> #[trigger] tail[j] == entries[i + j]);
    assert(forall|a: int, b: int| 0 <= a < b < tail.len() ==> tail[a].0 != tail[b].0);
    lemma_record_field_recovery(tail, 0);
}

/// Decodes a required field: the entry under the field's wire name, which
/// must be present, decoded by the field type's codec.
pub fn decode_required<T: IntoAttributeValue>(
    map: &mut Vec<(String, AttrValue)>,
    name: &str,
) -> (r: Result<T, Error>)
    requires
        wf_entry_values(entry_models_of(old(map)@)),
    ensures
        entry_models_of(final(map)@) == remove_key(entry_models_of(old(map)@), name@),
        wf_entry_values(entry_models_of(final(map)@)),
        match r {
            Ok(v) => lookup(entry_models_of(old(map)@), name@) matches Some(av)
                && T::decode_spec(av) == Some(v.deep_view()) && T::valid(v.deep_view()),
            Err(_) => match lookup(entry_models_of(old(map)@), name@) {
                Some(av) => T::decode_spec(av) is None,
                None => true,
            },
        },
{
    proof {
        lemma_remove_key_wf(entry_models_of(map@), name@);
    }
    match require_field(map, name) {
        Ok(av) => T::from_av(av),
        Err(e) => Err(e),
    }
}

/// Decodes an optional field: an absent entry is no value; a present entry
/// decodes by the optional codec, so an explicit `Null` is no value too.
pub fn decode_optional<T: IntoAttributeValue>(
    map: &mut Vec<(String, AttrValue)>,
    name: &str,
) -> (r: Result<Option<T>, Error>)
    requires
        wf_entry_values(entry_models_of(old(map)@)),
    ensures
        entry_models_of(final(map)@) == remove_key(entry_models_of(old(map)@), name@),
        wf_entry_values(entry_models_of(final(map)@)),
        match r {
            Ok(v) => match lookup(entry_models_of(old(map)@), name@) {
                Some(av) => <Option<T> as IntoAttributeValue>::decode_spec(av) == Some(
                    v.deep_view(),
                ),
                None => v is None,
            },
            Err(_) => lookup(entry_models_of(old(map)@), name@) matches Some(av)
                && <Option<T> as IntoAttributeValue>::decode_spec(av) is None,
        },
{
    proof {
        lemma_remove_key_wf(entry_models_of(map@), name@);
    }
    match take_field(map, name) {
        Some(av) => <Option<T> as IntoAttributeValue>::from_av(av),
        None => Ok(None),
    }
}

/// Decodes a `default`-attributed field: an absent entry yields the field
/// type's default value instead of an error; a present entry decodes by the
/// field type's codec.
pub fn decode_defaulted<T: IntoAttributeValue + WithDefault>(
    map: &mut Vec<(String, AttrValue)>,
    name: &str,
) -> (r: Result<T, Error>)
    requires
        wf_entry_values(entry_models_of(old(map)@)),
    ensures
        entry_models_of(final(map)@) == remove_key(entry_models_of(old(map)@), name@),
        wf_entry_values(entry_models_of(final(map)@)),
        match r {
            Ok(v) => match lookup(entry_models_of(old(map)@), name@) {
                Some(av) => T::decode_spec(av) == Some(v.deep_view()) && T::valid(
                    v.deep_view(),
                ),
                None => v.deep_view() == T::default_spec(),
            },
            Err(_) => lookup(entry_models_of(old(map)@), name@) matches Some(av)
                && T::decode_spec(av) is None,
        },
{
    proof {
        lemma_remove_key_wf(entry_models_of(map@), name@);
    }
    match take_field(map, name) {
        Some(av) => T::from_av(av),
        None => Ok(T::default_value()),
    }
}

/// Encodes a field: one entry under the field's wire name.
pub fn encode_field<T: IntoAttributeValue>(
    out: &mut Vec<(String, AttrValue)>,
    name: &str,
    value: T,
)
    requires
        T::valid(value.deep_view()),
    ensures
        entry_models_of(final(out)@) == entry_models_of(old(out)@).push(
            (name@, T::encode_spec(value.deep_view())),
        ),
{
    let av = value.into_av();
    let key = String::from_str(name);
    out.push((key, av));
    proof {
        assert(out@.drop_last() =~= old(out)@);
        assert(entry_models_of(out@) == entry_models_of(old(out)@).push(
            (name@, T::encode_spec(value.deep_view())),
        ));
    }
}

/// Encodes an optional field: a held value is written under the field's wire
/// name; an absent one is omitted from the map entirely (this library's
/// encoding policy, rather than writing an explicit `Null`).
pub fn encode_optional_field<T: IntoAttributeValue>(
    out: &mut Vec<(String, AttrValue)>,
    name: &str,
    value: Option<T>,
)
    requires
        <Option<T> as IntoAttributeValue>::valid(value.deep_view()),
    ensures
        value is Some ==> entry_models_of(final(out)@) == entry_models_of(old(out)@).push(
            (name@, <Option<T> as IntoAttributeValue>::encode_spec(value.deep_view())),
        ),
        value is None ==> final(out)@ == old(out)@,
{
    match value {
        Some(x) => encode_field(out, name, x),
        None => {},
    }
}

} // verus!
