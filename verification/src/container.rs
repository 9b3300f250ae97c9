//! Codecs for the container types: optional values, byte blobs, and ordered
//! sequences.
//!
//! An absent optional encodes as `Null`, a present one as its payload's own
//! encoding, with no wrapper.  A sequence of bytes encodes as the `B` blob
//! variant; any other sequence as the `L` list variant, order preserved.

use crate::codec::{
    decode_seq, encode_seq, lemma_decode_seq, lemma_encode_seq_wf, lemma_seq_round_trip,
    IntoAttributeValue, WithDefault,
};
use crate::error::Error;
use crate::number::{dec_digits, format_u128, lemma_unsigned_round_trip};
use crate::value::{lemma_models_of, lemma_wf_list, models_of, AttrModel, AttrValue};
use vstd::prelude::*;

verus! {

broadcast use vstd::std_specs::vec::group_vec_axioms;

/// How a sequence reaches the wire: a sequence of bytes travels as the `B`
/// blob variant, any other sequence as the `L` list variant.
pub enum IterableType {
    Blob,
    List,
}

impl<T: IntoAttributeValue> IntoAttributeValue for Option<T> {
    open spec fn valid(v: Option<T::V>) -> bool {
        match v {
            Some(x) => T::valid(x),
            None => true,
        }
    }

    /// A present payload that itself encodes as `Null` (for example an empty
    /// string set) decodes back as absent: such values are not lossless.
    open spec fn lossless(v: Option<T::V>) -> bool {
        match v {
            Some(x) => T::lossless(x) && !(T::encode_spec(x) is Null),
            None => true,
        }
    }

    open spec fn encode_spec(v: Option<T::V>) -> AttrModel {
        match v {
            Some(x) => T::encode_spec(x),
            None => AttrModel::Null,
        }
    }

    open spec fn decode_spec(av: AttrModel) -> Option<Option<T::V>> {
        match av {
            AttrModel::Null => Some(None),
            _ => match T::decode_spec(av) {
                Some(x) => Some(Some(x)),
                None => None,
            },
        }
    }

    proof fn lemma_encode_wf(v: Option<T::V>) {
        match v {
            Some(x) => T::lemma_encode_wf(x),
            None => {},
        }
    }

    proof fn lemma_round_trip(v: Option<T::V>) {
        match v {
            Some(x) => T::lemma_round_trip(x),
            None => {},
        }
    }

    fn into_av(self) -> (av: AttrValue) {
        match self {
            Some(x) => x.into_av(),
            None => AttrValue::Null,
        }
    }

    fn from_av(av: AttrValue) -> (r: Result<Option<T>, Error>) {
        match av {
            AttrValue::Null => Ok(None),
            other => match T::from_av(other) {
                Ok(x) => Ok(Some(x)),
                Err(e) => Err(e),
            },
        }
    }
}

impl IntoAttributeValue for Vec<u8> {
    open spec fn valid(v: Seq<u8>) -> bool {
        true
    }

    open spec fn lossless(v: Seq<u8>) -> bool {
        true
    }

    open spec fn encode_spec(v: Seq<u8>) -> AttrModel {
        AttrModel::B(v)
    }

    open spec fn decode_spec(av: AttrModel) -> Option<Seq<u8>> {
        match av {
            AttrModel::B(b) => Some(b),
            _ => None,
        }
    }

    proof fn lemma_encode_wf(v: Seq<u8>) {
    }

    proof fn lemma_round_trip(v: Seq<u8>) {
    }

    fn into_av(self) -> (av: AttrValue) {
        proof {
            assert(self.deep_view() =~= self@);
        }
        AttrValue::B(self)
    }

    fn from_av(av: AttrValue) -> (r: Result<Vec<u8>, Error>) {
        match av {
            AttrValue::B(b) => {
                proof {
                    assert(b.deep_view() =~= b@);
                }
                Ok(b)
            },
            other => Err(other.mismatch("B")),
        }
    }
}

impl<T: IntoAttributeValue> IntoAttributeValue for Vec<T> {
    open spec fn valid(v: Seq<T::V>) -> bool {
        forall|i: int| 0 <= i < v.len() ==> T::valid(#[trigger] v[i])
    }

    open spec fn lossless(v: Seq<T::V>) -> bool {
        forall|i: int| 0 <= i < v.len() ==> T::lossless(#[trigger] v[i])
    }

    open spec fn encode_spec(v: Seq<T::V>) -> AttrModel {
        AttrModel::L(encode_seq::<T>(v))
    }

    open spec fn decode_spec(av: AttrModel) -> Option<Seq<T::V>> {
        match av {
            AttrModel::L(items) => decode_seq::<T>(items),
            _ => None,
        }
    }

    proof fn lemma_encode_wf(v: Seq<T::V>) {
        lemma_encode_seq_wf::<T>(v);
        crate::value::lemma_wf_items(encode_seq::<T>(v));
    }

    proof fn lemma_round_trip(v: Seq<T::V>) {
        lemma_seq_round_trip::<T>(v);
    }

    fn into_av(self) -> (av: AttrValue) {
        let ghost dv = self.deep_view();
        let mut rest = self;
        let mut rev: Vec<AttrValue> = Vec::new();
        proof {
            assert(forall|k: int| 0 <= k < dv.len() ==> rest@[k].deep_view() == #[trigger] dv[k]);
        }
        while rest.len() > 0
            invariant
                rest@.len() + rev@.len() == dv.len(),
                forall|k: int|
                    0 <= k < rest@.len() ==> rest@[k].deep_view() == #[trigger] dv[k],
                forall|k: int| 0 <= k < rest@.len() ==> T::valid(#[trigger] dv[k]),
                forall|k: int|
                    0 <= k < rev@.len() ==> (#[trigger] rev@[k])@ == T::encode_spec(
                        dv[dv.len() - 1 - k],
                    ),
            decreases rest@.len(),
        {
            let x = match rest.pop() {
                Some(x) => x,
                None => unreached(),
            };
            proof {
                assert(x.deep_view() == dv[rest@.len() as int]);
                assert(T::valid(dv[rest@.len() as int]));
            }
            rev.push(x.into_av());
        }
        let mut out: Vec<AttrValue> = Vec::new();
        while rev.len() > 0
            invariant
                rev@.len() + out@.len() == dv.len(),
                forall|k: int|
                    0 <= k < rev@.len() ==> (#[trigger] rev@[k])@ == T::encode_spec(
                        dv[dv.len() - 1 - k],
                    ),
                forall|j: int|
                    0 <= j < out@.len() ==> (#[trigger] out@[j])@ == T::encode_spec(dv[j]),
            decreases rev@.len(),
        {
            let x = match rev.pop() {
                Some(x) => x,
                None => unreached(),
            };
            out.push(x);
        }
        proof {
            lemma_models_of(out@);
            assert(models_of(out@) =~= encode_seq::<T>(dv));
        }
        AttrValue::L(out)
    }

    fn from_av(av: AttrValue) -> (r: Result<Vec<T>, Error>) {
        match av {
            AttrValue::L(items) => {
                let ghost models = models_of(items@);
                proof {
                    lemma_models_of(items@);
                    lemma_decode_seq::<T>(models);
                    crate::value::lemma_wf_list(models);
                }
                let mut rest = items;
                let mut out: Vec<T> = Vec::new();
                while rest.len() > 0
                    invariant
                        av@ == AttrModel::L(models),
                        forall|i: int| 0 <= i < models.len() ==> (#[trigger] models[i]).wf(),
                        models.len() == rest@.len() + out@.len(),
                        forall|k: int|
                            0 <= k < rest@.len() ==> (#[trigger] rest@[k])@ == models[
                                out@.len() + k
                            ],
                        forall|j: int|
                            0 <= j < out@.len() ==> T::decode_spec(#[trigger] models[j])
                                == Some(out@[j].deep_view()) && T::valid(out@[j].deep_view()),
                    decreases rest@.len(),
                {
                    let ghost prev_rest = rest@;
                    let x = rest.remove(0);
                    proof {
                        assert(x@ == models[out@.len() as int]);
                        assert(models[out@.len() as int].wf());
                        assert(x@.wf());
                        assert(forall|k: int|
                            0 <= k < rest@.len() ==> #[trigger] rest@[k] == prev_rest[k + 1]);
                    }
                    match T::from_av(x) {
                        Ok(v) => {
                            out.push(v);
                        },
                        Err(e) => {
                            proof {
                                lemma_decode_seq::<T>(models);
                                assert(T::decode_spec(models[out@.len() as int]) is None);
                                assert(decode_seq::<T>(models) is None);
                            }
                            return Err(e);
                        },
                    }
                }
                proof {
                    lemma_decode_seq::<T>(models);
                    assert(decode_seq::<T>(models) is Some);
                    let vs = decode_seq::<T>(models)->0;
                    assert forall|j: int| 0 <= j < vs.len() implies vs[j] == out.deep_view()[j] by {
                        assert(T::decode_spec(models[j]) == Some(vs[j]));
                        assert(T::decode_spec(models[j]) == Some(out@[j].deep_view()));
                    }
                    assert(vs =~= out.deep_view());
                    assert forall|j: int|
                        0 <= j < out.deep_view().len() implies T::valid(
                        #[trigger] out.deep_view()[j],
                    ) by {
                        assert(T::decode_spec(models[j]) == Some(out@[j].deep_view()));
                        assert(T::valid(out@[j].deep_view()));
                        assert(out.deep_view()[j] == out@[j].deep_view());
                    }
                }
                Ok(out)
            },
            other => Err(other.mismatch("L")),
        }
    }
}

impl<T: DeepView> WithDefault for Option<T> {
    open spec fn default_spec() -> Option<T::V> {
        None
    }

    fn default_value() -> (r: Option<T>) {
        None
    }
}

impl<T: DeepView> WithDefault for Vec<T> {
    open spec fn default_spec() -> Seq<T::V> {
        Seq::empty()
    }

    fn default_value() -> (r: Vec<T>) {
        let r: Vec<T> = Vec::new();
        proof {
            assert(r.deep_view() =~= Seq::<T::V>::empty());
        }
        r
    }
}

/// The diagnostic for a pair encoding of the wrong arity.
pub open spec fn bad_arity_message() -> Seq<char> {
    "Expected L with 2 elements"@
}

impl IntoAttributeValue for (u64, String) {
    open spec fn valid(v: (u64, Seq<char>)) -> bool {
        true
    }

    open spec fn lossless(v: (u64, Seq<char>)) -> bool {
        true
    }

    /// A pair encodes as a two-element list, components in declared order.
    open spec fn encode_spec(v: (u64, Seq<char>)) -> AttrModel {
        AttrModel::L(seq![AttrModel::N(dec_digits(v.0 as int)), AttrModel::S(v.1)])
    }

    /// Decoding demands a list of exactly two elements, decoded positionally.
    open spec fn decode_spec(av: AttrModel) -> Option<(u64, Seq<char>)> {
        match av {
            AttrModel::L(items) => if items.len() == 2 {
                match (
                    <u64 as IntoAttributeValue>::decode_spec(items[0]),
                    <String as IntoAttributeValue>::decode_spec(items[1]),
                ) {
                    (Some(n), Some(s)) => Some((n, s)),
                    _ => None,
                }
            } else {
                None
            },
            _ => None,
        }
    }

    proof fn lemma_encode_wf(v: (u64, Seq<char>)) {
        let items = seq![AttrModel::N(dec_digits(v.0 as int)), AttrModel::S(v.1)];
        crate::value::lemma_wf_items(items);
    }

    proof fn lemma_round_trip(v: (u64, Seq<char>)) {
        lemma_unsigned_round_trip(v.0 as int);
    }

    fn into_av(self) -> (av: AttrValue) {
        let mut items: Vec<AttrValue> = Vec::new();
        items.push(AttrValue::N(format_u128(self.0 as u128)));
        items.push(AttrValue::S(self.1));
        proof {
            lemma_models_of(items@);
            assert(models_of(items@) =~= seq![
                AttrModel::N(dec_digits(self.0 as int)),
                AttrModel::S(self.1@),
            ]);
        }
        AttrValue::L(items)
    }

    fn from_av(av: AttrValue) -> (r: Result<(u64, String), Error>) {
        match av {
            AttrValue::L(items) => {
                let ghost models = models_of(items@);
                proof {
                    lemma_models_of(items@);
                    lemma_wf_list(models);
                }
                if items.len() != 2 {
                    return Err(Error::WrongType(String::from_str("Expected L with 2 elements")));
                }
                let mut items = items;
                let second = match items.pop() {
                    Some(x) => x,
                    None => unreached(),
                };
                let first = match items.pop() {
                    Some(x) => x,
                    None => unreached(),
                };
                proof {
                    assert(first@ == models[0] && second@ == models[1]);
                }
                let n = match <u64 as IntoAttributeValue>::from_av(first) {
                    Ok(n) => n,
                    Err(e) => {
                        return Err(e);
                    },
                };
                let s = match <String as IntoAttributeValue>::from_av(second) {
                    Ok(s) => s,
                    Err(e) => {
                        return Err(e);
                    },
                };
                Ok((n, s))
            },
            other => Err(other.mismatch("L")),
        }
    }
}

} // verus!
