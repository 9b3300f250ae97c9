//! Codecs for the scalar types: booleans, text, and the fixed-width
//! integers.  Booleans travel as the `Bool` wire variant, text as `S`, and
//! every integer as `N` carrying its canonical decimal text.

use crate::codec::{IntoAttributeValue, WithDefault};
use crate::error::Error;
use crate::number::{
    dec_digits, dec_int, format_i128, format_u128, lemma_signed_round_trip,
    lemma_unsigned_round_trip, lemma_unsigned_text_value_nonneg, parse_i128, parse_u128,
    signed_text_value, unsigned_text_value,
};
use crate::value::{AttrModel, AttrValue};
use vstd::prelude::*;

verus! {

/// Whether two string slices hold the same characters.  Wire names and map
/// keys are compared with this.
pub fn str_eq(a: &str, b: &str) -> (r: bool)
    ensures
        r == (a@ == b@),
{
    let alen = a.unicode_len();
    let blen = b.unicode_len();
    if alen != blen {
        return false;
    }
    let mut i: usize = 0;
    while i < alen
        invariant
            a@.len() == alen,
            b@.len() == alen,
            i <= alen,
            forall|k: int| 0 <= k < i ==> a@[k] == b@[k],
        decreases alen - i,
    {
        if a.get_char(i) != b.get_char(i) {
            return false;
        }
        i = i + 1;
    }
    proof {
        assert(a@ =~= b@);
    }
    true
}

/// The diagnostic for numeric text that does not parse in the expected
/// range.
pub open spec fn bad_number_message(text: Seq<char>) -> Seq<char> {
    "Could not parse number, got N("@ + text + ")"@
}

/// The error for numeric text that does not parse in the expected range.
fn bad_number(text: &String) -> (r: Error)
    ensures
        r matches Error::WrongType(m) && m@ == bad_number_message(text@),
{
    let mut out = String::from_str("Could not parse number, got N(");
    out.append(text.as_str());
    out.append(")");
    Error::WrongType(out)
}

/// The value an unsigned integer type with maximum `max` decodes from a wire
/// model: the value of the `N` variant's text when in range.
pub open spec fn decode_unsigned(av: AttrModel, max: int) -> Option<int> {
    match av {
        AttrModel::N(t) => match unsigned_text_value(t) {
            Some(v) => if 0 <= v <= max {
                Some(v)
            } else {
                None
            },
            None => None,
        },
        _ => None,
    }
}

/// The value a signed integer type with range `min ..= max` decodes from a
/// wire model: the value of the `N` variant's text when in range.
pub open spec fn decode_signed(av: AttrModel, min: int, max: int) -> Option<int> {
    match av {
        AttrModel::N(t) => match signed_text_value(t) {
            Some(v) => if min <= v <= max {
                Some(v)
            } else {
                None
            },
            None => None,
        },
        _ => None,
    }
}

/// Decodes the `N` variant's text as an unsigned value of at most `max`.
fn from_av_unsigned(av: AttrValue, max: u128) -> (r: Result<u128, Error>)
    ensures
        match r {
            Ok(v) => decode_unsigned(av@, max as int) == Some(v as int) && v <= max,
            Err(_) => decode_unsigned(av@, max as int) is None,
        },
{
    match av {
        AttrValue::N(t) => {
            proof {
                lemma_unsigned_text_value_nonneg(t@);
            }
            match parse_u128(t.as_str()) {
                Some(m) => if m <= max {
                    Ok(m)
                } else {
                    Err(bad_number(&t))
                },
                None => Err(bad_number(&t)),
            }
        },
        other => Err(other.mismatch("N")),
    }
}

/// Decodes the `N` variant's text as a signed value in `min ..= max`.
fn from_av_signed(av: AttrValue, min: i128, max: i128) -> (r: Result<i128, Error>)
    ensures
        match r {
            Ok(v) => decode_signed(av@, min as int, max as int) == Some(v as int) && min <= v
                <= max,
            Err(_) => decode_signed(av@, min as int, max as int) is None,
        },
{
    match av {
        AttrValue::N(t) => {
            match parse_i128(t.as_str()) {
                Some(m) => if min <= m && m <= max {
                    Ok(m)
                } else {
                    Err(bad_number(&t))
                },
                None => Err(bad_number(&t)),
            }
        },
        other => Err(other.mismatch("N")),
    }
}

impl IntoAttributeValue for bool {
    open spec fn valid(v: bool) -> bool {
        true
    }

    open spec fn lossless(v: bool) -> bool {
        true
    }

    open spec fn encode_spec(v: bool) -> AttrModel {
        AttrModel::Bool(v)
    }

    open spec fn decode_spec(av: AttrModel) -> Option<bool> {
        match av {
            AttrModel::Bool(b) => Some(b),
            _ => None,
        }
    }

    proof fn lemma_encode_wf(v: bool) {
    }

    proof fn lemma_round_trip(v: bool) {
    }

    fn into_av(self) -> (av: AttrValue) {
        AttrValue::Bool(self)
    }

    fn from_av(av: AttrValue) -> (r: Result<bool, Error>) {
        match av {
            AttrValue::Bool(b) => Ok(b),
            other => Err(other.mismatch("Bool")),
        }
    }
}

impl IntoAttributeValue for String {
    open spec fn valid(v: Seq<char>) -> bool {
        true
    }

    open spec fn lossless(v: Seq<char>) -> bool {
        true
    }

    open spec fn encode_spec(v: Seq<char>) -> AttrModel {
        AttrModel::S(v)
    }

    open spec fn decode_spec(av: AttrModel) -> Option<Seq<char>> {
        match av {
            AttrModel::S(s) => Some(s),
            _ => None,
        }
    }

    proof fn lemma_encode_wf(v: Seq<char>) {
    }

    proof fn lemma_round_trip(v: Seq<char>) {
    }

    fn into_av(self) -> (av: AttrValue) {
        AttrValue::S(self)
    }

    fn from_av(av: AttrValue) -> (r: Result<String, Error>) {
        match av {
            AttrValue::S(s) => Ok(s),
            other => Err(other.mismatch("S")),
        }
    }
}

impl IntoAttributeValue for u16 {
    open spec fn valid(v: u16) -> bool {
        true
    }

    open spec fn lossless(v: u16) -> bool {
        true
    }

    open spec fn encode_spec(v: u16) -> AttrModel {
        AttrModel::N(dec_digits(v as int))
    }

    open spec fn decode_spec(av: AttrModel) -> Option<u16> {
        match decode_unsigned(av, u16::MAX as int) {
            Some(v) => Some(v as u16),
            None => None,
        }
    }

    proof fn lemma_encode_wf(v: u16) {
    }

    proof fn lemma_round_trip(v: u16) {
        lemma_unsigned_round_trip(v as int);
    }

    fn into_av(self) -> (av: AttrValue) {
        AttrValue::N(format_u128(self as u128))
    }

    fn from_av(av: AttrValue) -> (r: Result<u16, Error>) {
        match from_av_unsigned(av, u16::MAX as u128) {
            Ok(v) => Ok(v as u16),
            Err(e) => Err(e),
        }
    }
}

impl IntoAttributeValue for u32 {
    open spec fn valid(v: u32) -> bool {
        true
    }

    open spec fn lossless(v: u32) -> bool {
        true
    }

    open spec fn encode_spec(v: u32) -> AttrModel {
        AttrModel::N(dec_digits(v as int))
    }

    open spec fn decode_spec(av: AttrModel) -> Option<u32> {
        match decode_unsigned(av, u32::MAX as int) {
            Some(v) => Some(v as u32),
            None => None,
        }
    }

    proof fn lemma_encode_wf(v: u32) {
    }

    proof fn lemma_round_trip(v: u32) {
        lemma_unsigned_round_trip(v as int);
    }

    fn into_av(self) -> (av: AttrValue) {
        AttrValue::N(format_u128(self as u128))
    }

    fn from_av(av: AttrValue) -> (r: Result<u32, Error>) {
        match from_av_unsigned(av, u32::MAX as u128) {
            Ok(v) => Ok(v as u32),
            Err(e) => Err(e),
        }
    }
}

impl IntoAttributeValue for u64 {
    open spec fn valid(v: u64) -> bool {
        true
    }

    open spec fn lossless(v: u64) -> bool {
        true
    }

    open spec fn encode_spec(v: u64) -> AttrModel {
        AttrModel::N(dec_digits(v as int))
    }

    open spec fn decode_spec(av: AttrModel) -> Option<u64> {
        match decode_unsigned(av, u64::MAX as int) {
            Some(v) => Some(v as u64),
            None => None,
        }
    }

    proof fn lemma_encode_wf(v: u64) {
    }

    proof fn lemma_round_trip(v: u64) {
        lemma_unsigned_round_trip(v as int);
    }

    fn into_av(self) -> (av: AttrValue) {
        AttrValue::N(format_u128(self as u128))
    }

    fn from_av(av: AttrValue) -> (r: Result<u64, Error>) {
        match from_av_unsigned(av, u64::MAX as u128) {
            Ok(v) => Ok(v as u64),
            Err(e) => Err(e),
        }
    }
}

impl IntoAttributeValue for u128 {
    open spec fn valid(v: u128) -> bool {
        true
    }

    open spec fn lossless(v: u128) -> bool {
        true
    }

    open spec fn encode_spec(v: u128) -> AttrModel {
        AttrModel::N(dec_digits(v as int))
    }

    open spec fn decode_spec(av: AttrModel) -> Option<u128> {
        match decode_unsigned(av, u128::MAX as int) {
            Some(v) => Some(v as u128),
            None => None,
        }
    }

    proof fn lemma_encode_wf(v: u128) {
    }

    proof fn lemma_round_trip(v: u128) {
        lemma_unsigned_round_trip(v as int);
    }

    fn into_av(self) -> (av: AttrValue) {
        AttrValue::N(format_u128(self))
    }

    fn from_av(av: AttrValue) -> (r: Result<u128, Error>) {
        match from_av_unsigned(av, u128::MAX as u128) {
            Ok(v) => Ok(v),
            Err(e) => Err(e),
        }
    }
}

impl IntoAttributeValue for usize {
    open spec fn valid(v: usize) -> bool {
        true
    }

    open spec fn lossless(v: usize) -> bool {
        true
    }

    open spec fn encode_spec(v: usize) -> AttrModel {
        AttrModel::N(dec_digits(v as int))
    }

    open spec fn decode_spec(av: AttrModel) -> Option<usize> {
        match decode_unsigned(av, usize::MAX as int) {
            Some(v) => Some(v as usize),
            None => None,
        }
    }

    proof fn lemma_encode_wf(v: usize) {
    }

    proof fn lemma_round_trip(v: usize) {
        lemma_unsigned_round_trip(v as int);
    }

    fn into_av(self) -> (av: AttrValue) {
        AttrValue::N(format_u128(self as u128))
    }

    fn from_av(av: AttrValue) -> (r: Result<usize, Error>) {
        match from_av_unsigned(av, usize::MAX as u128) {
            Ok(v) => Ok(v as usize),
            Err(e) => Err(e),
        }
    }
}

impl IntoAttributeValue for i8 {
    open spec fn valid(v: i8) -> bool {
        true
    }

    open spec fn lossless(v: i8) -> bool {
        true
    }

    open spec fn encode_spec(v: i8) -> AttrModel {
        AttrModel::N(dec_int(v as int))
    }

    open spec fn decode_spec(av: AttrModel) -> Option<i8> {
        match decode_signed(av, i8::MIN as int, i8::MAX as int) {
            Some(v) => Some(v as i8),
            None => None,
        }
    }

    proof fn lemma_encode_wf(v: i8) {
    }

    proof fn lemma_round_trip(v: i8) {
        lemma_signed_round_trip(v as int);
    }

    fn into_av(self) -> (av: AttrValue) {
        AttrValue::N(format_i128(self as i128))
    }

    fn from_av(av: AttrValue) -> (r: Result<i8, Error>) {
        match from_av_signed(av, i8::MIN as i128, i8::MAX as i128) {
            Ok(v) => Ok(v as i8),
            Err(e) => Err(e),
        }
    }
}

impl IntoAttributeValue for i16 {
    open spec fn valid(v: i16) -> bool {
        true
    }

    open spec fn lossless(v: i16) -> bool {
        true
    }

    open spec fn encode_spec(v: i16) -> AttrModel {
        AttrModel::N(dec_int(v as int))
    }

    open spec fn decode_spec(av: AttrModel) -> Option<i16> {
        match decode_signed(av, i16::MIN as int, i16::MAX as int) {
            Some(v) => Some(v as i16),
            None => None,
        }
    }

    proof fn lemma_encode_wf(v: i16) {
    }

    proof fn lemma_round_trip(v: i16) {
        lemma_signed_round_trip(v as int);
    }

    fn into_av(self) -> (av: AttrValue) {
        AttrValue::N(format_i128(self as i128))
    }

    fn from_av(av: AttrValue) -> (r: Result<i16, Error>) {
        match from_av_signed(av, i16::MIN as i128, i16::MAX as i128) {
            Ok(v) => Ok(v as i16),
            Err(e) => Err(e),
        }
    }
}

impl IntoAttributeValue for i32 {
    open spec fn valid(v: i32) -> bool {
        true
    }

    open spec fn lossless(v: i32) -> bool {
        true
    }

    open spec fn encode_spec(v: i32) -> AttrModel {
        AttrModel::N(dec_int(v as int))
    }

    open spec fn decode_spec(av: AttrModel) -> Option<i32> {
        match decode_signed(av, i32::MIN as int, i32::MAX as int) {
            Some(v) => Some(v as i32),
            None => None,
        }
    }

    proof fn lemma_encode_wf(v: i32) {
    }

    proof fn lemma_round_trip(v: i32) {
        lemma_signed_round_trip(v as int);
    }

    fn into_av(self) -> (av: AttrValue) {
        AttrValue::N(format_i128(self as i128))
    }

    fn from_av(av: AttrValue) -> (r: Result<i32, Error>) {
        match from_av_signed(av, i32::MIN as i128, i32::MAX as i128) {
            Ok(v) => Ok(v as i32),
            Err(e) => Err(e),
        }
    }
}

impl IntoAttributeValue for i64 {
    open spec fn valid(v: i64) -> bool {
        true
    }

    open spec fn lossless(v: i64) -> bool {
        true
    }

    open spec fn encode_spec(v: i64) -> AttrModel {
        AttrModel::N(dec_int(v as int))
    }

    open spec fn decode_spec(av: AttrModel) -> Option<i64> {
        match decode_signed(av, i64::MIN as int, i64::MAX as int) {
            Some(v) => Some(v as i64),
            None => None,
        }
    }

    proof fn lemma_encode_wf(v: i64) {
    }

    proof fn lemma_round_trip(v: i64) {
        lemma_signed_round_trip(v as int);
    }

    fn into_av(self) -> (av: AttrValue) {
        AttrValue::N(format_i128(self as i128))
    }

    fn from_av(av: AttrValue) -> (r: Result<i64, Error>) {
        match from_av_signed(av, i64::MIN as i128, i64::MAX as i128) {
            Ok(v) => Ok(v as i64),
            Err(e) => Err(e),
        }
    }
}

impl IntoAttributeValue for i128 {
    open spec fn valid(v: i128) -> bool {
        true
    }

    open spec fn lossless(v: i128) -> bool {
        true
    }

    open spec fn encode_spec(v: i128) -> AttrModel {
        AttrModel::N(dec_int(v as int))
    }

    open spec fn decode_spec(av: AttrModel) -> Option<i128> {
        match decode_signed(av, i128::MIN as int, i128::MAX as int) {
            Some(v) => Some(v as i128),
            None => None,
        }
    }

    proof fn lemma_encode_wf(v: i128) {
    }

    proof fn lemma_round_trip(v: i128) {
        lemma_signed_round_trip(v as int);
    }

    fn into_av(self) -> (av: AttrValue) {
        AttrValue::N(format_i128(self))
    }

    fn from_av(av: AttrValue) -> (r: Result<i128, Error>) {
        match from_av_signed(av, i128::MIN as i128, i128::MAX as i128) {
            Ok(v) => Ok(v),
            Err(e) => Err(e),
        }
    }
}

impl IntoAttributeValue for isize {
    open spec fn valid(v: isize) -> bool {
        true
    }

    open spec fn lossless(v: isize) -> bool {
        true
    }

    open spec fn encode_spec(v: isize) -> AttrModel {
        AttrModel::N(dec_int(v as int))
    }

    open spec fn decode_spec(av: AttrModel) -> Option<isize> {
        match decode_signed(av, isize::MIN as int, isize::MAX as int) {
            Some(v) => Some(v as isize),
            None => None,
        }
    }

    proof fn lemma_encode_wf(v: isize) {
    }

    proof fn lemma_round_trip(v: isize) {
        lemma_signed_round_trip(v as int);
    }

    fn into_av(self) -> (av: AttrValue) {
        AttrValue::N(format_i128(self as i128))
    }

    fn from_av(av: AttrValue) -> (r: Result<isize, Error>) {
        match from_av_signed(av, isize::MIN as i128, isize::MAX as i128) {
            Ok(v) => Ok(v as isize),
            Err(e) => Err(e),
        }
    }
}

impl WithDefault for bool {
    open spec fn default_spec() -> bool {
        false
    }

    fn default_value() -> (r: bool) {
        false
    }
}

impl WithDefault for String {
    open spec fn default_spec() -> Seq<char> {
        Seq::empty()
    }

    fn default_value() -> (r: String) {
        String::new()
    }
}

impl WithDefault for u16 {
    open spec fn default_spec() -> u16 {
        0
    }

    fn default_value() -> (r: u16) {
        0
    }
}

impl WithDefault for u32 {
    open spec fn default_spec() -> u32 {
        0
    }

    fn default_value() -> (r: u32) {
        0
    }
}

impl WithDefault for u64 {
    open spec fn default_spec() -> u64 {
        0
    }

    fn default_value() -> (r: u64) {
        0
    }
}

impl WithDefault for u128 {
    open spec fn default_spec() -> u128 {
        0
    }

    fn default_value() -> (r: u128) {
        0
    }
}

impl WithDefault for usize {
    open spec fn default_spec() -> usize {
        0
    }

    fn default_value() -> (r: usize) {
        0
    }
}

impl WithDefault for i8 {
    open spec fn default_spec() -> i8 {
        0
    }

    fn default_value() -> (r: i8) {
        0
    }
}

impl WithDefault for i16 {
    open spec fn default_spec() -> i16 {
        0
    }

    fn default_value() -> (r: i16) {
        0
    }
}

impl WithDefault for i32 {
    open spec fn default_spec() -> i32 {
        0
    }

    fn default_value() -> (r: i32) {
        0
    }
}

impl WithDefault for i64 {
    open spec fn default_spec() -> i64 {
        0
    }

    fn default_value() -> (r: i64) {
        0
    }
}

impl WithDefault for i128 {
    open spec fn default_spec() -> i128 {
        0
    }

    fn default_value() -> (r: i128) {
        0
    }
}

impl WithDefault for isize {
    open spec fn default_spec() -> isize {
        0
    }

    fn default_value() -> (r: isize) {
        0
    }
}

/// A positive, non-zero size: the codec's positive-nonzero integer type.
#[derive(Debug, PartialEq, Clone, Copy)]
pub struct PositiveUsize {
    value: usize,
}

impl View for PositiveUsize {
    type V = usize;

    closed spec fn view(&self) -> usize {
        self.value
    }
}

impl DeepView for PositiveUsize {
    type V = usize;

    open spec fn deep_view(&self) -> usize {
        self.view()
    }
}

impl PositiveUsize {
    /// Wraps a non-zero value; zero is refused.
    pub fn new(value: usize) -> (r: Option<PositiveUsize>)
        ensures
            value >= 1 ==> (r matches Some(p) && p@ == value),
            value == 0 ==> r is None,
    {
        if value >= 1 {
            Some(PositiveUsize { value })
        } else {
            None
        }
    }

    /// The wrapped value.
    pub fn get(&self) -> (r: usize)
        ensures
            r == self@,
    {
        self.value
    }
}

impl IntoAttributeValue for PositiveUsize {
    /// The value is positive.
    open spec fn valid(v: usize) -> bool {
        v >= 1
    }

    open spec fn lossless(v: usize) -> bool {
        true
    }

    open spec fn encode_spec(v: usize) -> AttrModel {
        AttrModel::N(dec_digits(v as int))
    }

    /// Only a positive in-range number decodes; zero is refused.
    open spec fn decode_spec(av: AttrModel) -> Option<usize> {
        match decode_unsigned(av, usize::MAX as int) {
            Some(v) => if v >= 1 {
                Some(v as usize)
            } else {
                None
            },
            None => None,
        }
    }

    proof fn lemma_encode_wf(v: usize) {
    }

    proof fn lemma_round_trip(v: usize) {
        lemma_unsigned_round_trip(v as int);
    }

    fn into_av(self) -> (av: AttrValue) {
        AttrValue::N(format_u128(self.value as u128))
    }

    fn from_av(av: AttrValue) -> (r: Result<PositiveUsize, Error>) {
        match from_av_unsigned(av, usize::MAX as u128) {
            Ok(v) => {
                if v >= 1 {
                    Ok(PositiveUsize { value: v as usize })
                } else {
                    Err(Error::WrongType(String::from_str("Expected positive N, got 0")))
                }
            },
            Err(e) => Err(e),
        }
    }
}

} // verus!
