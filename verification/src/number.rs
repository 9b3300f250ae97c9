//! Decimal text: the canonical representation used by the `N` (number) wire
//! variant, with verified formatting and parsing.

use vstd::arithmetic::div_mod::lemma_fundamental_div_mod;
use vstd::prelude::*;

verus! {

/// The character for a single decimal digit.
pub open spec fn digit_char(d: int) -> char {
    if d == 0 {
        '0'
    } else if d == 1 {
        '1'
    } else if d == 2 {
        '2'
    } else if d == 3 {
        '3'
    } else if d == 4 {
        '4'
    } else if d == 5 {
        '5'
    } else if d == 6 {
        '6'
    } else if d == 7 {
        '7'
    } else if d == 8 {
        '8'
    } else {
        '9'
    }
}

/// Whether `c` is a decimal digit.
pub open spec fn is_digit(c: char) -> bool {
    48 <= c as int <= 57
}

/// The numeric value of a digit character.
pub open spec fn digit_val(c: char) -> int {
    c as int - 48
}

/// Every character of `s` is a decimal digit.
pub open spec fn all_digits(s: Seq<char>) -> bool {
    forall|i: int| 0 <= i < s.len() ==> is_digit(#[trigger] s[i])
}

/// The canonical decimal text of a non-negative integer: no sign, no leading
/// zero except for zero itself.
pub open spec fn dec_digits(n: int) -> Seq<char>
    decreases n,
{
    if n < 10 {
        seq![digit_char(n)]
    } else {
        dec_digits(n / 10).push(digit_char(n % 10))
    }
}

/// The canonical decimal text of an integer: a `-` sign before the digits of
/// the magnitude when negative.
pub open spec fn dec_int(n: int) -> Seq<char> {
    if n >= 0 {
        dec_digits(n)
    } else {
        seq!['-'] + dec_digits(-n)
    }
}

/// The numeric value of a digit string (most significant digit first).
pub open spec fn dec_value(s: Seq<char>) -> int
    decreases s.len(),
{
    if s.len() == 0 {
        0
    } else {
        dec_value(s.drop_last()) * 10 + digit_val(s.last())
    }
}

/// `digit_char` and `digit_val` invert each other on single digits.
pub proof fn lemma_digit_char_val(d: int)
    requires
        0 <= d <= 9,
    ensures
        is_digit(digit_char(d)),
        digit_val(digit_char(d)) == d,
{
}

/// The canonical decimal text of `n >= 0` consists of digits and evaluates
/// back to `n`.
pub proof fn lemma_dec_digits_value(n: int)
    requires
        n >= 0,
    ensures
        dec_digits(n).len() >= 1,
        all_digits(dec_digits(n)),
        dec_value(dec_digits(n)) == n,
    decreases n,
{
    if n < 10 {
        lemma_digit_char_val(n);
        assert(dec_value(dec_digits(n)) == dec_value(seq![digit_char(n)].drop_last()) * 10
            + digit_val(digit_char(n)));
        assert(seq![digit_char(n)].drop_last() =~= Seq::<char>::empty());
    } else {
        lemma_fundamental_div_mod(n, 10);
        lemma_dec_digits_value(n / 10);
        lemma_digit_char_val(n % 10);
        let head = dec_digits(n / 10);
        let whole = head.push(digit_char(n % 10));
        assert(whole.drop_last() =~= head);
        assert(dec_value(whole) == dec_value(head) * 10 + digit_val(digit_char(n % 10)));
        assert forall|i: int| 0 <= i < whole.len() implies is_digit(#[trigger] whole[i]) by {
            if i < head.len() {
                assert(whole[i] == head[i]);
            }
        }
    }
}

/// A digit string evaluates to a non-negative value.
pub proof fn lemma_dec_value_nonneg(s: Seq<char>)
    requires
        all_digits(s),
    ensures
        dec_value(s) >= 0,
    decreases s.len(),
{
    if s.len() > 0 {
        assert(all_digits(s.drop_last())) by {
            assert(forall|i: int|
                0 <= i < s.len() - 1 ==> #[trigger] s.drop_last()[i] == s[i]);
        }
        lemma_dec_value_nonneg(s.drop_last());
    }
}

/// The digit characters of a reversed digit-value sequence: the last value
/// becomes the first character.
pub open spec fn rev_chars(rev: Seq<u8>) -> Seq<char>
    decreases rev.len(),
{
    if rev.len() == 0 {
        Seq::empty()
    } else {
        seq![digit_char(rev.last() as int)] + rev_chars(rev.drop_last())
    }
}

/// `rev_chars` reverses its argument pointwise.
pub proof fn lemma_rev_chars(rev: Seq<u8>)
    ensures
        rev_chars(rev).len() == rev.len(),
        forall|k: int|
            0 <= k < rev.len() ==> rev_chars(rev)[k] == digit_char(
                rev[rev.len() - 1 - k] as int,
            ),
    decreases rev.len(),
{
    if rev.len() > 0 {
        lemma_rev_chars(rev.drop_last());
        assert(rev_chars(rev) == seq![digit_char(rev.last() as int)] + rev_chars(
            rev.drop_last(),
        ));
        assert forall|k: int|
            0 <= k < rev.len() implies rev_chars(rev)[k] == digit_char(
            rev[rev.len() - 1 - k] as int,
        ) by {
            if k > 0 {
                assert(rev_chars(rev)[k] == rev_chars(rev.drop_last())[k - 1]);
                assert(rev.drop_last()[rev.len() - 1 - k] == rev[rev.len() - 1 - k]);
            }
        }
    }
}

/// Extending a digit string to the right never lowers its value.
pub proof fn lemma_dec_value_extend(s: Seq<char>, more: int)
    requires
        all_digits(s),
        0 <= more <= s.len(),
    ensures
        dec_value(s) >= dec_value(s.take(more)),
    decreases s.len() - more,
{
    if more < s.len() {
        lemma_dec_value_extend(s, more + 1);
        let longer = s.take(more + 1);
        assert(longer.drop_last() =~= s.take(more));
        assert(all_digits(s.take(more))) by {
            assert(forall|i: int| 0 <= i < more ==> #[trigger] s.take(more)[i] == s[i]);
        }
        lemma_dec_value_nonneg(s.take(more));
        assert(is_digit(longer.last())) by {
            assert(longer.last() == s[more]);
        }
        assert(dec_value(longer) >= dec_value(s.take(more)));
    } else {
        assert(s.take(more) =~= s);
    }
}

/// The value named by unsigned numeric text: an optional `+` sign followed by
/// at least one digit.  Leading zeros are accepted.
pub open spec fn unsigned_text_value(s: Seq<char>) -> Option<int> {
    if s.len() >= 1 && s[0] == '+' {
        if s.len() >= 2 && all_digits(s.skip(1)) {
            Some(dec_value(s.skip(1)))
        } else {
            None
        }
    } else if s.len() >= 1 && all_digits(s) {
        Some(dec_value(s))
    } else {
        None
    }
}

/// The value named by signed numeric text: an optional `+` or `-` sign
/// followed by at least one digit.
pub open spec fn signed_text_value(s: Seq<char>) -> Option<int> {
    if s.len() >= 1 && s[0] == '-' {
        if s.len() >= 2 && all_digits(s.skip(1)) {
            Some(-dec_value(s.skip(1)))
        } else {
            None
        }
    } else {
        unsigned_text_value(s)
    }
}

/// Unsigned numeric text never names a negative value.
pub proof fn lemma_unsigned_text_value_nonneg(s: Seq<char>)
    ensures
        unsigned_text_value(s) matches Some(v) ==> v >= 0,
{
    if unsigned_text_value(s) is Some {
        if s.len() >= 1 && s[0] == '+' {
            lemma_dec_value_nonneg(s.skip(1));
        } else {
            lemma_dec_value_nonneg(s);
        }
    }
}

/// What parsing text as a `u128` yields: the value of unsigned numeric text
/// when it fits the width, nothing otherwise.
pub open spec fn spec_parse_u128(s: Seq<char>) -> Option<u128> {
    match unsigned_text_value(s) {
        Some(v) => if v <= u128::MAX { Some(v as u128) } else { None },
        None => None,
    }
}

/// What parsing text as an `i128` yields: the value of signed numeric text
/// when it fits the width, nothing otherwise.
pub open spec fn spec_parse_i128(s: Seq<char>) -> Option<i128> {
    match signed_text_value(s) {
        Some(v) => if i128::MIN <= v <= i128::MAX { Some(v as i128) } else { None },
        None => None,
    }
}

/// Canonical decimal text parses back to the value it was formatted from.
pub proof fn lemma_unsigned_round_trip(n: int)
    requires
        n >= 0,
    ensures
        unsigned_text_value(dec_digits(n)) == Some(n),
{
    lemma_dec_digits_value(n);
    let s = dec_digits(n);
    assert(is_digit(s[0]));
    assert(s[0] != '+');
}

/// Canonical signed decimal text parses back to the value it was formatted
/// from.
pub proof fn lemma_signed_round_trip(n: int)
    ensures
        signed_text_value(dec_int(n)) == Some(n),
{
    if n >= 0 {
        lemma_unsigned_round_trip(n);
        let s = dec_int(n);
        lemma_dec_digits_value(n);
        assert(is_digit(s[0]));
        assert(s[0] != '-');
    } else {
        lemma_dec_digits_value(-n);
        let s = dec_int(n);
        assert(s[0] == '-');
        assert(s.skip(1) =~= dec_digits(-n));
        assert(s.len() >= 2);
    }
}

/// The single-character text of a decimal digit.
fn digit_str(d: u8) -> (r: &'static str)
    requires
        d < 10,
    ensures
        r@ == seq![digit_char(d as int)],
{
    proof {
        reveal_strlit("0");
        reveal_strlit("1");
        reveal_strlit("2");
        reveal_strlit("3");
        reveal_strlit("4");
        reveal_strlit("5");
        reveal_strlit("6");
        reveal_strlit("7");
        reveal_strlit("8");
        reveal_strlit("9");
    }
    match d {
        0 => "0",
        1 => "1",
        2 => "2",
        3 => "3",
        4 => "4",
        5 => "5",
        6 => "6",
        7 => "7",
        8 => "8",
        _ => "9",
    }
}

/// Parses the run of digits from position `start` to the end of `s`: the
/// value of the run, or nothing when the run is empty, holds a non-digit, or
/// exceeds `u128::MAX`.
fn parse_digits(s: &str, start: usize) -> (r: Option<u128>)
    requires
        start <= s@.len(),
    ensures
        r == (if start < s@.len() && all_digits(s@.skip(start as int)) && dec_value(
            s@.skip(start as int),
        ) <= u128::MAX {
            Some(dec_value(s@.skip(start as int)) as u128)
        } else {
            Option::<u128>::None
        }),
{
    let ghost tail = s@.skip(start as int);
    let len = s.unicode_len();
    if start >= len {
        return None;
    }
    let mut i = start;
    let mut acc: u128 = 0;
    proof {
        assert(tail.take(0) =~= Seq::<char>::empty());
    }
    while i < len
        invariant
            start <= i <= len,
            len == s@.len(),
            tail == s@.skip(start as int),
            all_digits(tail.take(i - start)),
            acc == dec_value(tail.take(i - start)),
        decreases len - i,
    {
        let c = s.get_char(i);
        let code = c as u32;
        proof {
            assert(tail[i - start] == s@[i as int]);
        }
        if code < 48 || code > 57 {
            proof {
                assert(!is_digit(tail[i - start]));
            }
            return None;
        }
        let m = acc.checked_mul(10);
        let v = if let Some(mv) = m {
            mv.checked_add((code - 48) as u128)
        } else {
            None
        };
        let ghost prefix = tail.take(i - start);
        let ghost longer = tail.take(i + 1 - start);
        proof {
            assert(longer.drop_last() =~= prefix);
            assert(longer.last() == tail[i - start]);
            assert(dec_value(longer) == acc * 10 + digit_val(s@[i as int]));
            assert(all_digits(longer));
        }
        match v {
            Some(next) => {
                acc = next;
            },
            None => {
                proof {
                    lemma_dec_value_nonneg(prefix);
                    assert(dec_value(longer) > u128::MAX);
                    if all_digits(tail) {
                        lemma_dec_value_extend(tail, i + 1 - start);
                        assert(dec_value(tail) > u128::MAX);
                    }
                }
                return None;
            },
        }
        i = i + 1;
    }
    proof {
        assert(tail.take(i - start) =~= tail);
    }
    Some(acc)
}

/// Parses unsigned numeric text (an optional `+` sign, then digits) as a
/// `u128`.
pub fn parse_u128(s: &str) -> (r: Option<u128>)
    ensures
        r == spec_parse_u128(s@),
{
    let len = s.unicode_len();
    if len == 0 {
        return None;
    }
    let c0 = s.get_char(0);
    if c0 == '+' {
        parse_digits(s, 1)
    } else {
        proof {
            assert(s@.skip(0) =~= s@);
        }
        parse_digits(s, 0)
    }
}

/// Parses signed numeric text (an optional `+` or `-` sign, then digits) as
/// an `i128`.
pub fn parse_i128(s: &str) -> (r: Option<i128>)
    ensures
        r == spec_parse_i128(s@),
{
    let len = s.unicode_len();
    if len == 0 {
        return None;
    }
    let c0 = s.get_char(0);
    if c0 == '-' {
        let mag = parse_digits(s, 1);
        match mag {
            Some(m) => {
                if m <= 170141183460469231731687303715884105727u128 {
                    proof {
                        lemma_dec_value_nonneg(s@.skip(1));
                        assert(signed_text_value(s@) == Some(-(m as int)));
                    }
                    Some(-(m as i128))
                } else if m == 170141183460469231731687303715884105728u128 {
                    proof {
                        lemma_dec_value_nonneg(s@.skip(1));
                        assert(signed_text_value(s@) == Some(-(m as int)));
                    }
                    Some(i128::MIN)
                } else {
                    proof {
                        lemma_dec_value_nonneg(s@.skip(1));
                    }
                    None
                }
            },
            None => {
                proof {
                    if s@.len() >= 2 && all_digits(s@.skip(1)) {
                        lemma_dec_value_nonneg(s@.skip(1));
                    }
                }
                None
            },
        }
    } else {
        let v = parse_u128(s);
        proof {
            lemma_unsigned_text_value_nonneg(s@);
        }
        match v {
            Some(m) => {
                if m <= 170141183460469231731687303715884105727u128 {
                    Some(m as i128)
                } else {
                    None
                }
            },
            None => {
                proof {
                    match unsigned_text_value(s@) {
                        Some(value) => {
                            if s@[0] == '+' {
                                lemma_dec_value_nonneg(s@.skip(1));
                            } else {
                                lemma_dec_value_nonneg(s@);
                            }
                            assert(value > u128::MAX);
                        },
                        None => {},
                    }
                }
                None
            },
        }
    }
}

/// Formats an unsigned value as its canonical decimal text.
pub fn format_u128(n: u128) -> (s: String)
    ensures
        s@ == dec_digits(n as int),
{
    let mut rev: Vec<u8> = Vec::new();
    let mut x: u128 = n / 10;
    rev.push((n % 10) as u8);
    proof {
        let c = digit_char((n % 10) as int);
        assert(rev@.drop_last() =~= Seq::<u8>::empty());
        assert(rev_chars(Seq::<u8>::empty()) == Seq::<char>::empty());
        assert(rev_chars(rev@) == seq![c] + rev_chars(rev@.drop_last()));
        assert(rev_chars(rev@) =~= seq![c]);
        if x > 0 {
            assert(dec_digits(n as int) == dec_digits(x as int).push(c));
            assert(dec_digits(x as int).push(c) =~= dec_digits(x as int) + rev_chars(rev@));
        } else {
            assert(dec_digits(n as int) =~= rev_chars(rev@));
        }
    }
    while x > 0
        invariant
            forall|j: int| 0 <= j < rev@.len() ==> rev@[j] < 10,
            rev@.len() >= 1,
            x > 0 ==> dec_digits(n as int) =~= dec_digits(x as int) + rev_chars(rev@),
            x == 0 ==> dec_digits(n as int) =~= rev_chars(rev@),
        decreases x,
    {
        let ghost prev = rev@;
        let d = (x % 10) as u8;
        rev.push(d);
        proof {
            assert(rev@.drop_last() =~= prev);
            assert(rev_chars(rev@) == seq![digit_char(d as int)] + rev_chars(prev));
            if x >= 10 {
                assert(dec_digits(x as int) == dec_digits(x as int / 10).push(
                    digit_char((x % 10) as int),
                ));
                assert(dec_digits(x as int / 10) + rev_chars(rev@) =~= dec_digits(x as int)
                    + rev_chars(prev));
            } else {
                assert(dec_digits(x as int) =~= seq![digit_char(d as int)]);
                assert(rev_chars(rev@) =~= dec_digits(x as int) + rev_chars(prev));
            }
        }
        x = x / 10;
    }
    let mut s = String::new();
    let mut i = rev.len();
    proof {
        lemma_rev_chars(rev@);
    }
    while i > 0
        invariant
            i <= rev@.len(),
            forall|j: int| 0 <= j < rev@.len() ==> rev@[j] < 10,
            rev_chars(rev@).len() == rev@.len(),
            forall|k: int|
                0 <= k < rev@.len() ==> rev_chars(rev@)[k] == digit_char(
                    rev@[rev@.len() - 1 - k] as int,
                ),
            s@.len() == rev@.len() - i,
            forall|k: int| 0 <= k < s@.len() ==> s@[k] == rev_chars(rev@)[k],
        decreases i,
    {
        i = i - 1;
        s.append(digit_str(rev[i]));
    }
    proof {
        assert(s@ =~= rev_chars(rev@));
    }
    s
}

/// Formats a signed value as its canonical decimal text.
pub fn format_i128(n: i128) -> (s: String)
    ensures
        s@ == dec_int(n as int),
{
    if n >= 0 {
        format_u128(n as u128)
    } else {
        let mag: u128 = ((-(n + 1)) as u128) + 1;
        let mut s = String::from_str("-");
        let digits = format_u128(mag);
        s.append(digits.as_str());
        proof {
            reveal_strlit("-");
            assert(s@ =~= seq!['-'] + dec_digits(-(n as int)));
        }
        s
    }
}

} // verus!
