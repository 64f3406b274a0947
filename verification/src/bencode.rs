//! Bencode decoding over text: strings (`5:hello`) and integers (`i-5e`).
use vstd::prelude::*;
use vstd::string::StringSliceAdditionalSpecFns;

use crate::bytes_bencode::{
    first_index, is_first, lemma_first_index, no_leading_zero, position_of,
};
use crate::decimal::{
    decimal_digits, is_digit, lemma_nat_digits, nat_digits, parse_i64, parse_usize,
    spec_parse_i64, spec_parse_usize,
};
use crate::extension::magnet_link::bencode_out::{bencode_bytes, lemma_read_bytes};
use crate::utils::text::{ascii_chars, ascii_text, lemma_boundary_after_ascii, string_from_chars};

verus! {

/// An element of a decoded list: an integer or a string.
#[derive(PartialEq, Eq, Debug)]
pub enum ListValue {
    Int(i64),
    Str(String),
}

/// The text of an integer: its digits, after a `-` when it is negative.
pub open spec fn int_text(i: int) -> Seq<char> {
    if i < 0 {
        seq!['-'] + ascii_text(nat_digits((-i) as nat))
    } else {
        ascii_text(nat_digits(i as nat))
    }
}

impl ListValue {
    /// The value as it is printed: the integer in decimal, the string as it
    /// is.
    pub fn to_text(&self) -> (r: String)
        ensures
            match self {
                ListValue::Int(i) => r@ == int_text(*i as int),
                ListValue::Str(s) => r@ == s@,
            },
    {
        match self {
            ListValue::Int(i) => {
                let magnitude: u64 = if *i < 0 {
                    (0i128 - (*i as i128)) as u64
                } else {
                    *i as u64
                };
                let digits = decimal_digits(magnitude);
                proof {
                    crate::decimal::lemma_nat_digits(magnitude as nat);
                    assert forall|k: int| 0 <= k < digits@.len() implies digits@[k] < 128 by {
                        assert(crate::decimal::is_digit(digits@[k]));
                    }
                }
                let text = ascii_chars(digits.as_slice());
                let mut chars: Vec<char> = Vec::new();
                if *i < 0 {
                    chars.push('-');
                }
                let mut k: usize = 0;
                while k < text.len()
                    invariant
                        k <= text@.len(),
                        chars@ == (if *i < 0 {
                            seq!['-']
                        } else {
                            Seq::<char>::empty()
                        }) + text@.take(k as int),
                    decreases text@.len() - k,
                {
                    chars.push(text[k]);
                    k = k + 1;
                    proof {
                        assert(text@.take(k as int) =~= text@.take(k - 1).push(text@[k - 1]));
                    }
                }
                assert(text@.take(k as int) =~= text@);
                assert(chars@ =~= int_text(*i as int));
                string_from_chars(&chars)
            },
            ListValue::Str(s) => s.clone(),
        }
    }
}

#[derive(Clone)]
pub struct Bencode {}

/// `<length>:<contents>` at the start of the bytes of a text: the position of
/// the `:` and the length, when both can be read.
pub open spec fn str_header(b: Seq<u8>) -> Option<(int, nat)> {
    match first_index(b, 58) {
        Some(c) => match spec_parse_usize(b.take(c)) {
            Some(n) => Some((c, n as nat)),
            None => None,
        },
        None => None,
    }
}

/// `i<integer>e` at the start of the bytes of a text: after the first byte,
/// the position (counted from the second byte) of the first `e`.
pub open spec fn int_end(b: Seq<u8>) -> Option<int> {
    first_index(b.skip(1), 101)
}

/// The bytes of an integer's text: its digits, after a `-` when it is
/// negative.
pub open spec fn int_bytes(i: int) -> Seq<u8> {
    if i < 0 {
        seq![45u8] + nat_digits((-i) as nat)
    } else {
        nat_digits(i as nat)
    }
}

/// A text that is a string written as `<length>:<contents>` followed by any
/// text decodes as those contents and that rest: `decode_string` accepts it
/// and its result is `(s, rest)`. (A text in memory has at most `usize::MAX`
/// bytes.)
pub proof fn lemma_decode_string_roundtrip(encoded: &str, s: &str, rest: &str)
    requires
        encoded.spec_bytes() == bencode_bytes(s.spec_bytes()) + rest.spec_bytes(),
        s.spec_bytes().len() <= usize::MAX,
    ensures
        ({
            let b = encoded.spec_bytes();
            &&& str_header(b) matches Some((c, n)) && c + 1 + n <= b.len()
                && vstd::utf8::is_char_boundary(b, c + 1 + n)
                && b.subrange(c + 1, c + 1 + n) == s.spec_bytes()
                && b.skip(c + 1 + n) == rest.spec_bytes()
        }),
{
    let b = encoded.spec_bytes();
    let sb = s.spec_bytes();
    let rb = rest.spec_bytes();
    let k = bencode_bytes(sb).len() as int;
    lemma_read_bytes(sb, rb);
    assert(b.skip(k) =~= rb);
    vstd::utf8::encode_utf8_valid_utf8(encoded@);
    vstd::utf8::encode_utf8_valid_utf8(rest@);
    if rb.len() == 0 {
        assert(b.len() == k);
        vstd::utf8::is_char_boundary_start_end_of_seq(b);
    } else {
        assert(vstd::utf8::is_char_boundary(rb, 0));
        vstd::utf8::is_char_boundary_iff_not_is_continuation_byte(rb, 0);
        assert(b[k] == rb[0]);
        vstd::utf8::is_char_boundary_iff_not_is_continuation_byte(b, k);
    }
}

/// A text that is an integer written as `i<n>e` followed by any text decodes
/// as that integer and that rest: `decode_integer` accepts it and its result
/// is `(n, rest)`, for every `i64`, `0` and negatives included.
pub proof fn lemma_decode_integer_roundtrip(encoded: &str, n: i64, rest: &str)
    requires
        encoded.spec_bytes() == seq![105u8] + int_bytes(n as int) + seq![101u8] + rest.spec_bytes(),
    ensures
        ({
            let b = encoded.spec_bytes();
            let k = int_bytes(n as int).len() as int;
            &&& b.len() >= 1
            &&& b[0] < 128
            &&& int_end(b) == Some(k)
            &&& no_leading_zero(b.subrange(1, 1 + k))
            &&& spec_parse_i64(b.subrange(1, 1 + k)) == Some(n)
            &&& b.skip(k + 2) == rest.spec_bytes()
        }),
{
    let b = encoded.spec_bytes();
    let t = int_bytes(n as int);
    let k = t.len() as int;
    let m: nat = if n < 0 { (-(n as int)) as nat } else { n as nat };
    let d = nat_digits(m);
    lemma_nat_digits(m);
    assert(b.subrange(1, 1 + k) =~= t);
    assert(b.skip(k + 2) =~= rest.spec_bytes());
    let tail = b.skip(1);
    assert(tail[k] == 101u8);
    assert forall|j: int| 0 <= j < k implies tail[j] != 101u8 by {
        assert(tail[j] == t[j]);
        if n < 0 {
            if j > 0 {
                assert(t[j] == d[j - 1]);
                assert(is_digit(d[j - 1]));
            }
        } else {
            assert(is_digit(d[j]));
        }
    }
    assert(is_first(tail, 101u8, k));
    lemma_first_index(tail, 101u8, k);
    assert(is_digit(d[0]));
    if n < 0 {
        assert(t.drop_first() =~= d);
        assert(m > 0);
        assert(d[0] != 48u8);
    } else {
        assert(t == d);
        if m < 10 {
            assert(d.len() == 1);
        }
    }
}

impl Bencode {
    pub fn new() -> (r: Self) {
        Bencode {}
    }

    /// A string is encoded as `<length>:<contents>`, e.g. `5:hello`. Returns
    /// the contents and the rest of the text after them. The length counts
    /// bytes and must end on a character of the text.
    pub fn decode_string(self, encoded_string: &str) -> (r: (&str, &str))
        requires
            str_header(encoded_string.spec_bytes()) matches Some((c, n)) && c + 1 + n
                <= encoded_string.spec_bytes().len() && vstd::utf8::is_char_boundary(
                encoded_string.spec_bytes(),
                c + 1 + n,
            ),
        ensures
            ({
                let b = encoded_string.spec_bytes();
                let (c, n) = str_header(b)->0;
                &&& r.0.spec_bytes() == b.subrange(c + 1, c + 1 + n)
                &&& r.1.spec_bytes() == b.skip(c + 1 + n)
            }),
    {
        let bytes = encoded_string.as_bytes();
        let ghost b = encoded_string.spec_bytes();
        let c = match position_of(bytes, 58) {
            Some(c) => c,
            None => {
                return ("", "");
            },
        };
        let head = &bytes[0..c];
        assert(head@ =~= b.take(c as int));
        let n = match parse_usize(head) {
            Some(n) => n,
            None => {
                return ("", "");
            },
        };
        assert(str_header(b) == Some((c as int, n as nat)));
        assert(c + 1 + n <= bytes.len());
        let end = c + 1 + n;
        let (front, rest) = encoded_string.split_at(end);
        proof {
            vstd::utf8::encode_utf8_valid_utf8(encoded_string@);
            vstd::utf8::valid_utf8_split(b, end as int);
            let fb = b.subrange(0, end as int);
            assert(fb == front.spec_bytes());
            vstd::utf8::is_char_boundary_iff_not_is_continuation_byte(fb, c as int);
            assert(fb[c as int] == 58);
            lemma_boundary_after_ascii(fb, c as int);
        }
        let (_, value) = front.split_at(c + 1);
        assert(value.spec_bytes() =~= b.subrange(c + 1, end as int));
        assert(rest.spec_bytes() =~= b.skip(end as int));
        (value, rest)
    }

    /// An integer is encoded as `i<integer>e`, e.g. `i5e` or `i-5e`. Returns
    /// the integer and the rest of the text after the `e`. An integer with a
    /// leading zero (`i-0e`, `i04e`) is malformed; `i0e` is zero.
    pub fn decode_integer(self, encoded_int: &str) -> (r: (i64, &str))
        requires
            encoded_int.spec_bytes().len() >= 1,
            encoded_int.spec_bytes()[0] < 128,
            int_end(encoded_int.spec_bytes()) matches Some(k) && no_leading_zero(
                encoded_int.spec_bytes().subrange(1, 1 + k),
            ) && spec_parse_i64(encoded_int.spec_bytes().subrange(1, 1 + k)) is Some,
        ensures
            ({
                let b = encoded_int.spec_bytes();
                let k = int_end(b)->0;
                &&& r.0 == spec_parse_i64(b.subrange(1, 1 + k))->0
                &&& r.1.spec_bytes() == b.skip(k + 2)
            }),
    {
        let bytes = encoded_int.as_bytes();
        let ghost b = encoded_int.spec_bytes();
        let tail = &bytes[1..bytes.len()];
        assert(tail@ =~= b.skip(1));
        let k = match position_of(tail, 101) {
            Some(k) => k,
            None => {
                return (0, "");
            },
        };
        let digits = &bytes[1..1 + k];
        assert(digits@ =~= b.subrange(1, 1 + k as int));
        let num = match parse_i64(digits) {
            Some(v) => v,
            None => {
                return (0, "");
            },
        };
        proof {
            vstd::utf8::encode_utf8_valid_utf8(encoded_int@);
            vstd::utf8::is_char_boundary_iff_not_is_continuation_byte(b, 1 + k as int);
            assert(b[1 + k] == 101);
            lemma_boundary_after_ascii(b, 1 + k as int);
        }
        let (_, rest) = encoded_int.split_at(k + 2);
        assert(rest.spec_bytes() =~= b.skip(k + 2));
        (num, rest)
    }
}

} // verus!
