//! Codecs for the keyed collections: a set of distinct strings and a
//! string-keyed map.
//!
//! A non-empty string set encodes as the `Ss` wire variant; an empty one
//! encodes as `Null`, and decoding accepts either `Ss` or `Null` (`Null`
//! restores the empty set).  A string-keyed map encodes as the `M` wire
//! variant with each value encoded by its own codec.

use crate::codec::{IntoAttributeValue, WithDefault};
use crate::item::IntoDynamoItem;
use crate::error::Error;
use crate::primitive::str_eq;
use crate::value::{
    distinct_strings, entry_models_of, lemma_entry_models_of, lemma_wf_entry_values, AttrModel,
    AttrValue,
};
use vstd::prelude::*;

verus! {

broadcast use vstd::std_specs::vec::group_vec_axioms;

/// A set of distinct strings, kept in insertion order.
#[derive(Debug, PartialEq)]
pub struct StringSet {
    members: Vec<String>,
}

impl View for StringSet {
    type V = Seq<Seq<char>>;

    closed spec fn view(&self) -> Seq<Seq<char>> {
        Seq::new(self.members@.len(), |i: int| self.members@[i]@)
    }
}

impl DeepView for StringSet {
    type V = Seq<Seq<char>>;

    open spec fn deep_view(&self) -> Seq<Seq<char>> {
        self.view()
    }
}

/// Whether `v` holds the string `s`.
pub open spec fn contains_string(v: Seq<Seq<char>>, s: Seq<char>) -> bool {
    exists|i: int| 0 <= i < v.len() && v[i] == s
}

impl StringSet {
    /// The empty set.
    pub fn new() -> (r: StringSet)
        ensures
            r@ == Seq::<Seq<char>>::empty(),
    {
        let r = StringSet { members: Vec::new() };
        proof {
            assert(r@ =~= Seq::<Seq<char>>::empty());
        }
        r
    }

    /// How many members the set holds.
    pub fn len(&self) -> (r: usize)
        ensures
            r == self@.len(),
    {
        self.members.len()
    }

    /// Whether the set holds `s`.
    pub fn contains(&self, s: &str) -> (r: bool)
        ensures
            r == contains_string(self@, s@),
    {
        let mut i: usize = 0;
        while i < self.members.len()
            invariant
                i <= self.members@.len(),
                self@.len() == self.members@.len(),
                forall|k: int| 0 <= k < self@.len() ==> self@[k] == self.members@[k]@,
                forall|k: int| 0 <= k < i ==> self@[k] != s@,
            decreases self.members@.len() - i,
        {
            if str_eq(self.members[i].as_str(), s) {
                proof {
                    assert(self@[i as int] == s@);
                }
                return true;
            }
            i = i + 1;
        }
        false
    }

    /// Adds `s` to the set; a string already held is not added again, so
    /// members stay distinct.
    pub fn insert(&mut self, s: String)
        ensures
            contains_string(old(self)@, s@) ==> final(self)@ == old(self)@,
            !contains_string(old(self)@, s@) ==> final(self)@ == old(self)@.push(s@),
            distinct_strings(old(self)@) ==> distinct_strings(final(self)@),
    {
        if self.contains(s.as_str()) {
            return;
        }
        let ghost before = self@;
        self.members.push(s);
        proof {
            assert(self@ =~= before.push(s@));
        }
    }

    /// The members, in insertion order.
    pub fn members(&self) -> (r: &Vec<String>)
        ensures
            r@.len() == self@.len(),
            forall|i: int| 0 <= i < r@.len() ==> (#[trigger] r@[i])@ == self@[i],
    {
        &self.members
    }
}

impl IntoAttributeValue for StringSet {
    /// A set's members are distinct.
    open spec fn valid(v: Seq<Seq<char>>) -> bool {
        distinct_strings(v)
    }

    open spec fn lossless(v: Seq<Seq<char>>) -> bool {
        true
    }

    /// An empty set encodes as `Null` rather than an empty `Ss` marker.
    open spec fn encode_spec(v: Seq<Seq<char>>) -> AttrModel {
        if v.len() == 0 {
            AttrModel::Null
        } else {
            AttrModel::Ss(v)
        }
    }

    /// Both `Ss` and `Null` decode; `Null` restores the empty set.
    open spec fn decode_spec(av: AttrModel) -> Option<Seq<Seq<char>>> {
        match av {
            AttrModel::Ss(members) => Some(members),
            AttrModel::Null => Some(Seq::empty()),
            _ => None,
        }
    }

    proof fn lemma_encode_wf(v: Seq<Seq<char>>) {
    }

    proof fn lemma_round_trip(v: Seq<Seq<char>>) {
        if v.len() == 0 {
            assert(v =~= Seq::<Seq<char>>::empty());
        }
    }

    fn into_av(self) -> (av: AttrValue) {
        if self.members.len() == 0 {
            AttrValue::Null
        } else {
            let r = AttrValue::Ss(self.members);
            proof {
                assert(r@ matches AttrModel::Ss(m) && m =~= self.deep_view());
            }
            r
        }
    }

    fn from_av(av: AttrValue) -> (r: Result<StringSet, Error>)
    {
        match av {
            AttrValue::Ss(members) => {
                let r = StringSet { members };
                proof {
                    assert(av@ matches AttrModel::Ss(m) && m =~= r.deep_view());
                }
                Ok(r)
            },
            AttrValue::Null => Ok(StringSet::new()),
            other => Err(other.mismatch("SS or Null")),
        }
    }
}

/// The empty-set asymmetry, by design: an empty string set encodes as
/// `Null`, not as an empty-set marker, and `Null` decodes back to the empty
/// set — so encoding is not injective for empty sets, yet every set still
/// round-trips.
pub proof fn lemma_empty_string_set_as_null()
    ensures
        <StringSet as IntoAttributeValue>::encode_spec(Seq::<Seq<char>>::empty())
            == AttrModel::Null,
        <StringSet as IntoAttributeValue>::decode_spec(AttrModel::Null) == Some(
            Seq::<Seq<char>>::empty(),
        ),
        forall|v: Seq<Seq<char>>|
            v.len() > 0 ==> <StringSet as IntoAttributeValue>::encode_spec(v)
                == AttrModel::Ss(v),
{
}

/// No two entries share a key.
pub open spec fn distinct_keys<V>(v: Seq<(Seq<char>, V)>) -> bool {
    forall|i: int, j: int| 0 <= i < j < v.len() ==> v[i].0 != v[j].0
}

/// Whether `v` holds an entry keyed `k`.
pub open spec fn has_str_key<V>(v: Seq<(Seq<char>, V)>, k: Seq<char>) -> bool {
    exists|i: int| 0 <= i < v.len() && v[i].0 == k
}

/// The models of the entry-wise encodings of a keyed sequence of values.
pub open spec fn encode_entries<T: IntoAttributeValue>(v: Seq<(Seq<char>, T::V)>) -> Seq<
    (Seq<char>, AttrModel),
> {
    v.map_values(|e: (Seq<char>, T::V)| (e.0, T::encode_spec(e.1)))
}

/// The entry-wise decoding of a keyed sequence of wire models: `Some`
/// exactly when every entry's value decodes; keys are kept as they are.
pub open spec fn decode_entries<T: IntoAttributeValue>(
    entries: Seq<(Seq<char>, AttrModel)>,
) -> Option<Seq<(Seq<char>, T::V)>>
    decreases entries.len(),
{
    if entries.len() == 0 {
        Some(Seq::empty())
    } else {
        match (decode_entries::<T>(entries.drop_last()), T::decode_spec(entries.last().1)) {
            (Some(init), Some(x)) => Some(init.push((entries.last().0, x))),
            _ => None,
        }
    }
}

/// `decode_entries` is the entry-wise decoding: it succeeds exactly when
/// every value decodes, keeps keys and order, and yields each value's
/// decoding.
pub proof fn lemma_decode_entries<T: IntoAttributeValue>(entries: Seq<(Seq<char>, AttrModel)>)
    ensures
        decode_entries::<T>(entries) matches Some(vs) ==> vs.len() == entries.len()
            && forall|i: int|
            0 <= i < entries.len() ==> (#[trigger] vs[i]).0 == entries[i].0 && T::decode_spec(
                entries[i].1,
            ) == Some(vs[i].1),
        (forall|i: int|
            0 <= i < entries.len() ==> T::decode_spec(#[trigger] entries[i].1) is Some)
            ==> decode_entries::<T>(entries) is Some,
    decreases entries.len(),
{
    if entries.len() > 0 {
        lemma_decode_entries::<T>(entries.drop_last());
        assert(decode_entries::<T>(entries) == (match (
            decode_entries::<T>(entries.drop_last()),
            T::decode_spec(entries.last().1),
        ) {
            (Some(init), Some(x)) => Some(init.push((entries.last().0, x))),
            _ => Option::<Seq<(Seq<char>, T::V)>>::None,
        }));
        assert(forall|i: int|
            0 <= i < entries.len() - 1 ==> #[trigger] entries.drop_last()[i] == entries[i]);
        if decode_entries::<T>(entries) is Some {
            let vs = decode_entries::<T>(entries)->0;
            let init = decode_entries::<T>(entries.drop_last())->0;
            assert forall|i: int|
                0 <= i < entries.len() implies (#[trigger] vs[i]).0 == entries[i].0
                && T::decode_spec(entries[i].1) == Some(vs[i].1) by {
                if i < entries.len() - 1 {
                    assert(vs[i] == init[i]);
                } else {
                    assert(entries[i] == entries.last());
                }
            }
        }
    }
}

/// Encoding valid values entry-wise gives well-formed models under the same
/// keys.
pub proof fn lemma_encode_entries_wf<T: IntoAttributeValue>(v: Seq<(Seq<char>, T::V)>)
    requires
        forall|i: int| 0 <= i < v.len() ==> T::valid((#[trigger] v[i]).1),
    ensures
        encode_entries::<T>(v).len() == v.len(),
        forall|i: int|
            0 <= i < v.len() ==> (#[trigger] encode_entries::<T>(v)[i]) == (
                v[i].0,
                T::encode_spec(v[i].1),
            ) && encode_entries::<T>(v)[i].1.wf(),
{
    assert forall|i: int|
        0 <= i < v.len() implies (#[trigger] encode_entries::<T>(v)[i]) == (
        v[i].0,
        T::encode_spec(v[i].1),
    ) && encode_entries::<T>(v)[i].1.wf() by {
        T::lemma_encode_wf(v[i].1);
    }
}

/// The round-trip law over keyed entries: decoding the entry-wise encodings
/// of valid, lossless values yields the entries again, keys and order kept.
pub proof fn lemma_entries_round_trip<T: IntoAttributeValue>(v: Seq<(Seq<char>, T::V)>)
    requires
        forall|i: int| 0 <= i < v.len() ==> T::valid((#[trigger] v[i]).1),
        forall|i: int| 0 <= i < v.len() ==> T::lossless((#[trigger] v[i]).1),
    ensures
        decode_entries::<T>(encode_entries::<T>(v)) == Some(v),
    decreases v.len(),
{
    let enc = encode_entries::<T>(v);
    if v.len() == 0 {
        assert(enc =~= Seq::<(Seq<char>, AttrModel)>::empty());
        assert(decode_entries::<T>(enc) == Some(Seq::<(Seq<char>, T::V)>::empty()));
        assert(Seq::<(Seq<char>, T::V)>::empty() =~= v);
    } else {
        assert(forall|i: int|
            0 <= i < v.len() - 1 ==> #[trigger] v.drop_last()[i] == v[i]);
        lemma_entries_round_trip::<T>(v.drop_last());
        T::lemma_round_trip(v.last().1);
        assert(enc.drop_last() =~= encode_entries::<T>(v.drop_last()));
        assert(enc.last() == (v.last().0, T::encode_spec(v.last().1)));
        assert(decode_entries::<T>(enc) == (match (
            decode_entries::<T>(enc.drop_last()),
            T::decode_spec(enc.last().1),
        ) {
            (Some(init), Some(x)) => Some(init.push((enc.last().0, x))),
            _ => Option::<Seq<(Seq<char>, T::V)>>::None,
        }));
        assert(v.drop_last().push((v.last().0, v.last().1)) =~= v);
    }
}

/// Encodes keyed values entry by entry, keeping keys and order.
pub fn encode_map_entries<T: IntoAttributeValue>(entries: Vec<(String, T)>) -> (out: Vec<
    (String, AttrValue),
>)
    requires
        forall|i: int|
            0 <= i < entries.deep_view().len() ==> T::valid(
                (#[trigger] entries.deep_view()[i]).1,
            ),
    ensures
        entry_models_of(out@) == encode_entries::<T>(entries.deep_view()),
{
    let ghost dv = entries.deep_view();
    let mut rest = entries;
    let mut rev: Vec<(String, AttrValue)> = Vec::new();
    proof {
        assert(forall|k: int|
            0 <= k < dv.len() ==> #[trigger] dv[k] == (rest@[k].0@, rest@[k].1.deep_view()));
    }
    while rest.len() > 0
        invariant
            rest@.len() + rev@.len() == dv.len(),
            forall|k: int|
                0 <= k < rest@.len() ==> #[trigger] dv[k] == (
                    rest@[k].0@,
                    rest@[k].1.deep_view(),
                ),
            forall|k: int| 0 <= k < rest@.len() ==> T::valid((#[trigger] dv[k]).1),
            forall|k: int|
                0 <= k < rev@.len() ==> (#[trigger] rev@[k].0)@ == dv[dv.len() - 1 - k].0
                    && rev@[k].1@ == T::encode_spec(dv[dv.len() - 1 - k].1),
        decreases rest@.len(),
    {
        let pair = match rest.pop() {
            Some(p) => p,
            None => unreached(),
        };
        proof {
            assert(dv[rest@.len() as int] == (pair.0@, pair.1.deep_view()));
            assert(T::valid(dv[rest@.len() as int].1));
        }
        let av = pair.1.into_av();
        rev.push((pair.0, av));
    }
    let mut out: Vec<(String, AttrValue)> = Vec::new();
    while rev.len() > 0
        invariant
            rev@.len() + out@.len() == dv.len(),
            forall|k: int|
                0 <= k < rev@.len() ==> (#[trigger] rev@[k].0)@ == dv[dv.len() - 1 - k].0
                    && rev@[k].1@ == T::encode_spec(dv[dv.len() - 1 - k].1),
            forall|j: int|
                0 <= j < out@.len() ==> (#[trigger] out@[j].0)@ == dv[j].0 && out@[j].1@
                    == T::encode_spec(dv[j].1),
        decreases rev@.len(),
    {
        let pair = match rev.pop() {
            Some(p) => p,
            None => unreached(),
        };
        out.push(pair);
    }
    proof {
        lemma_entry_models_of(out@);
        assert(entry_models_of(out@) =~= encode_entries::<T>(dv));
    }
    out
}

/// Decodes keyed wire entries entry by entry, keeping keys and order; the
/// first value that does not decode fails the whole map.
pub fn decode_map_entries<T: IntoAttributeValue>(entries: Vec<(String, AttrValue)>) -> (r:
    Result<Vec<(String, T)>, Error>)
    requires
        forall|i: int|
            0 <= i < entry_models_of(entries@).len() ==> (#[trigger] entry_models_of(
                entries@,
            )[i]).1.wf(),
    ensures
        match r {
            Ok(out) => decode_entries::<T>(entry_models_of(entries@)) == Some(out.deep_view())
                && forall|i: int|
                0 <= i < out.deep_view().len() ==> T::valid(
                    (#[trigger] out.deep_view()[i]).1,
                ),
            Err(_) => decode_entries::<T>(entry_models_of(entries@)) is None,
        },
{
    let ghost models = entry_models_of(entries@);
    proof {
        lemma_entry_models_of(entries@);
        lemma_decode_entries::<T>(models);
    }
    let mut rest = entries;
    let mut out: Vec<(String, T)> = Vec::new();
    while rest.len() > 0
        invariant
            models == entry_models_of(entries@),
            models.len() == rest@.len() + out@.len(),
            forall|i: int| 0 <= i < models.len() ==> (#[trigger] models[i]).1.wf(),
            forall|k: int|
                0 <= k < rest@.len() ==> ((#[trigger] rest@[k]).0@ == models[out@.len() + k].0
                    && rest@[k].1@ == models[out@.len() + k].1),
            forall|j: int|
                0 <= j < out@.len() ==> ((#[trigger] out@[j]).0@ == models[j].0
                    && T::decode_spec(models[j].1) == Some(out@[j].1.deep_view()) && T::valid(
                    out@[j].1.deep_view(),
                )),
        decreases rest@.len(),
    {
        let ghost prev_rest = rest@;
        let pair = rest.remove(0);
        proof {
            assert(pair == prev_rest[0]);
            assert(pair.1@ == models[out@.len() as int].1);
            assert(pair.1@.wf());
            assert(forall|k: int|
                0 <= k < rest@.len() ==> #[trigger] rest@[k] == prev_rest[k + 1]);
        }
        match T::from_av(pair.1) {
            Ok(v) => {
                out.push((pair.0, v));
            },
            Err(e) => {
                proof {
                    lemma_decode_entries::<T>(models);
                    assert(T::decode_spec(models[out@.len() as int].1) is None);
                    if decode_entries::<T>(models) is Some {
                        let vs = decode_entries::<T>(models)->0;
                        assert((#[trigger] vs[out@.len() as int]).0 == models[
                            out@.len() as int
                        ].0);
                        assert(false);
                    }
                }
                return Err(e);
            },
        }
    }
    proof {
        lemma_decode_entries::<T>(models);
        assert forall|i: int|
            0 <= i < models.len() implies T::decode_spec(#[trigger] models[i].1) is Some by {
            assert(T::decode_spec(models[i].1) == Some(out@[i].1.deep_view()));
        }
        assert(decode_entries::<T>(models) is Some);
        let vs = decode_entries::<T>(models)->0;
        assert forall|j: int|
            0 <= j < vs.len() implies vs[j] == out.deep_view()[j] by {
            assert((#[trigger] vs[j]).0 == models[j].0 && T::decode_spec(models[j].1) == Some(
                vs[j].1,
            ));
            assert(T::decode_spec(models[j].1) == Some(out@[j].1.deep_view()));
            assert(out.deep_view()[j] == (out@[j].0@, out@[j].1.deep_view()));
        }
        assert(vs =~= out.deep_view());
        assert forall|i: int|
            0 <= i < out.deep_view().len() implies T::valid(
            (#[trigger] out.deep_view()[i]).1,
        ) by {
            assert(T::decode_spec(models[i].1) == Some(out@[i].1.deep_view()));
            assert(T::valid(out@[i].1.deep_view()));
            assert(out.deep_view()[i] == (out@[i].0@, out@[i].1.deep_view()));
        }
    }
    Ok(out)
}

/// A string-keyed map with unique keys, kept in insertion order.
#[derive(Debug, PartialEq)]
pub struct StringMap<T> {
    entries: Vec<(String, T)>,
}

impl<T: DeepView> View for StringMap<T> {
    type V = Seq<(Seq<char>, T::V)>;

    closed spec fn view(&self) -> Seq<(Seq<char>, T::V)> {
        self.entries.deep_view()
    }
}

impl<T: DeepView> DeepView for StringMap<T> {
    type V = Seq<(Seq<char>, T::V)>;

    open spec fn deep_view(&self) -> Seq<(Seq<char>, T::V)> {
        self.view()
    }
}

impl<T: DeepView> StringMap<T> {
    /// The empty map.
    pub fn new() -> (r: StringMap<T>)
        ensures
            r@ == Seq::<(Seq<char>, T::V)>::empty(),
    {
        let r = StringMap { entries: Vec::new() };
        proof {
            assert(r@ =~= Seq::<(Seq<char>, T::V)>::empty());
        }
        r
    }

    /// How many entries the map holds.
    pub fn len(&self) -> (r: usize)
        ensures
            r == self@.len(),
    {
        self.entries.len()
    }

    /// Whether the map holds an entry keyed `key`.
    pub fn contains_key(&self, key: &str) -> (r: bool)
        ensures
            r == has_str_key(self@, key@),
    {
        let mut i: usize = 0;
        while i < self.entries.len()
            invariant
                i <= self.entries@.len(),
                self@.len() == self.entries@.len(),
                forall|k: int|
                    0 <= k < self@.len() ==> (#[trigger] self@[k]) == (
                        self.entries@[k].0@,
                        self.entries@[k].1.deep_view(),
                    ),
                forall|k: int| 0 <= k < i ==> (#[trigger] self@[k]).0 != key@,
            decreases self.entries@.len() - i,
        {
            if str_eq(self.entries[i].0.as_str(), key) {
                proof {
                    assert(self@[i as int].0 == key@);
                }
                return true;
            }
            i = i + 1;
        }
        false
    }

    /// Adds an entry under a key the map does not hold yet, so keys stay
    /// unique.
    pub fn insert(&mut self, key: String, value: T)
        requires
            !has_str_key(old(self)@, key@),
        ensures
            final(self)@ == old(self)@.push((key@, value.deep_view())),
    {
        let ghost before = self@;
        self.entries.push((key, value));
        proof {
            assert(self@ =~= before.push((key@, value.deep_view())));
        }
    }

    /// The value under `key`, if any.
    pub fn get(&self, key: &str) -> (r: Option<&T>)
        ensures
            match r {
                Some(v) => exists|i: int|
                    0 <= i < self@.len() && #[trigger] self@[i] == (key@, v.deep_view()),
                None => !has_str_key(self@, key@),
            },
    {
        let mut i: usize = 0;
        while i < self.entries.len()
            invariant
                i <= self.entries@.len(),
                self@.len() == self.entries@.len(),
                forall|k: int|
                    0 <= k < self@.len() ==> (#[trigger] self@[k]) == (
                        self.entries@[k].0@,
                        self.entries@[k].1.deep_view(),
                    ),
                forall|k: int| 0 <= k < i ==> (#[trigger] self@[k]).0 != key@,
            decreases self.entries@.len() - i,
        {
            if str_eq(self.entries[i].0.as_str(), key) {
                proof {
                    assert(self@[i as int] == (key@, self.entries@[i as int].1.deep_view()));
                }
                return Some(&self.entries[i].1);
            }
            i = i + 1;
        }
        None
    }

    /// The entries, in insertion order.
    pub fn entries(&self) -> (r: &Vec<(String, T)>)
        ensures
            r.deep_view() == self@,
    {
        &self.entries
    }
}

impl<T: IntoAttributeValue> IntoAttributeValue for StringMap<T> {
    /// A map's keys are unique, and each value is valid.
    open spec fn valid(v: Seq<(Seq<char>, T::V)>) -> bool {
        distinct_keys(v) && forall|i: int| 0 <= i < v.len() ==> T::valid((#[trigger] v[i]).1)
    }

    open spec fn lossless(v: Seq<(Seq<char>, T::V)>) -> bool {
        forall|i: int| 0 <= i < v.len() ==> T::lossless((#[trigger] v[i]).1)
    }

    open spec fn encode_spec(v: Seq<(Seq<char>, T::V)>) -> AttrModel {
        AttrModel::M(encode_entries::<T>(v))
    }

    open spec fn decode_spec(av: AttrModel) -> Option<Seq<(Seq<char>, T::V)>> {
        match av {
            AttrModel::M(entries) => decode_entries::<T>(entries),
            _ => None,
        }
    }

    proof fn lemma_encode_wf(v: Seq<(Seq<char>, T::V)>) {
        lemma_encode_entries_wf::<T>(v);
        let enc = encode_entries::<T>(v);
        assert forall|i: int, j: int|
            0 <= i < j < enc.len() implies enc[i].0 != enc[j].0 by {
            assert(enc[i].0 == v[i].0 && enc[j].0 == v[j].0);
        }
        lemma_wf_entry_values(enc);
    }

    proof fn lemma_round_trip(v: Seq<(Seq<char>, T::V)>) {
        lemma_entries_round_trip::<T>(v);
    }

    fn into_av(self) -> (av: AttrValue) {
        let out = encode_map_entries(self.entries);
        AttrValue::M(out)
    }

    fn from_av(av: AttrValue) -> (r: Result<StringMap<T>, Error>) {
        match av {
            AttrValue::M(entries) => {
                proof {
                    crate::value::lemma_wf_entry_values(entry_models_of(entries@));
                }
                match decode_map_entries::<T>(entries) {
                    Ok(out) => {
                        let r = StringMap { entries: out };
                        proof {
                            lemma_decode_entries::<T>(entry_models_of(entries@));
                            lemma_entry_models_of(entries@);
                            assert forall|i: int, j: int|
                                0 <= i < j < r@.len() implies r@[i].0 != r@[j].0 by {
                                let models = entry_models_of(entries@);
                                assert(r@[i].0 == models[i].0 && r@[j].0 == models[j].0);
                            }
                        }
                        Ok(r)
                    },
                    Err(e) => Err(e),
                }
            },
            other => Err(other.mismatch("M")),
        }
    }
}

impl<T: IntoAttributeValue> IntoDynamoItem for StringMap<T> {
    open spec fn item_valid(v: Seq<(Seq<char>, T::V)>) -> bool {
        <StringMap<T> as IntoAttributeValue>::valid(v)
    }

    open spec fn item_lossless(v: Seq<(Seq<char>, T::V)>) -> bool {
        <StringMap<T> as IntoAttributeValue>::lossless(v)
    }

    open spec fn encode_item_spec(v: Seq<(Seq<char>, T::V)>) -> Seq<(Seq<char>, AttrModel)> {
        encode_entries::<T>(v)
    }

    open spec fn decode_item_spec(item: Seq<(Seq<char>, AttrModel)>) -> Option<
        Seq<(Seq<char>, T::V)>,
    > {
        decode_entries::<T>(item)
    }

    proof fn lemma_item_encode_wf(v: Seq<(Seq<char>, T::V)>) {
        <StringMap<T> as IntoAttributeValue>::lemma_encode_wf(v);
    }

    proof fn lemma_item_round_trip(v: Seq<(Seq<char>, T::V)>) {
        lemma_entries_round_trip::<T>(v);
    }

    fn into_item(self) -> (item: Vec<(String, AttrValue)>) {
        encode_map_entries(self.entries)
    }

    fn from_item(item: Vec<(String, AttrValue)>) -> (r: Result<StringMap<T>, Error>) {
        proof {
            crate::value::lemma_wf_entry_values(entry_models_of(item@));
        }
        match decode_map_entries::<T>(item) {
            Ok(out) => {
                let r = StringMap { entries: out };
                proof {
                    lemma_decode_entries::<T>(entry_models_of(item@));
                    lemma_entry_models_of(item@);
                    assert forall|i: int, j: int|
                        0 <= i < j < r@.len() implies r@[i].0 != r@[j].0 by {
                        let models = entry_models_of(item@);
                        assert(r@[i].0 == models[i].0 && r@[j].0 == models[j].0);
                    }
                }
                Ok(r)
            },
            Err(e) => Err(e),
        }
    }
}

impl<T: DeepView> WithDefault for StringMap<T> {
    open spec fn default_spec() -> Seq<(Seq<char>, T::V)> {
        Seq::empty()
    }

    fn default_value() -> (r: StringMap<T>) {
        StringMap::new()
    }
}

impl WithDefault for StringSet {
    open spec fn default_spec() -> Seq<Seq<char>> {
        Seq::empty()
    }

    fn default_value() -> (r: StringSet) {
        StringSet::new()
    }
}

} // verus!
