//! Text: building strings from characters and bytes, and writing bytes in
//! hexadecimal.
use vstd::prelude::*;

verus! {

/// The string made of `chars`, from collecting the characters into a
/// `String` (`FromIterator<char>`). Trusted: the string holds exactly those
/// characters, in order.
#[verifier::external_body]
pub(crate) fn string_from_chars(chars: &Vec<char>) -> (r: String)
    ensures
        r@ == chars@,
{
    chars.iter().collect()
}

/// The characters of `s`, in order.
pub fn chars_of(s: &str) -> (r: Vec<char>)
    ensures
        r@ == s@,
{
    broadcast use vstd::string::axiom_spec_iter;
    let mut out: Vec<char> = Vec::new();
    for c in it: s.chars()
        invariant
            it.seq() == s@,
            out@ == it.seq().take(it.index()),
    {
        out.push(c);
    }
    assert(out@ =~= s@);
    out
}

/// `bytes` read as UTF-8, from `String::from_utf8`. Trusted: a string exactly
/// when the bytes are valid UTF-8, holding the characters they encode.
#[verifier::external_body]
pub(crate) fn string_from_utf8(bytes: Vec<u8>) -> (r: Option<String>)
    ensures
        match r {
            Some(s) => vstd::utf8::valid_utf8(bytes@) && s@ == vstd::utf8::decode_utf8(bytes@),
            None => !vstd::utf8::valid_utf8(bytes@),
        },
{
    String::from_utf8(bytes).ok()
}

/// The hexadecimal digit for `d` (below 16), lower or upper case.
pub open spec fn hex_digit(d: int, upper: bool) -> char {
    if d < 10 {
        (48 + d) as char
    } else if upper {
        (55 + d) as char
    } else {
        (87 + d) as char
    }
}

/// `bytes` in hexadecimal, two digits per byte, most significant first.
pub open spec fn hex_text(bytes: Seq<u8>, upper: bool) -> Seq<char>
    decreases bytes.len(),
{
    if bytes.len() == 0 {
        Seq::empty()
    } else {
        hex_text(bytes.drop_last(), upper) + seq![
            hex_digit((bytes.last() / 16) as int, upper),
            hex_digit((bytes.last() % 16) as int, upper),
        ]
    }
}

fn hex_char(d: u8, upper: bool) -> (c: char)
    requires
        d < 16,
    ensures
        c == hex_digit(d as int, upper),
{
    if d < 10 {
        (48 + d) as char
    } else if upper {
        (55 + d) as char
    } else {
        (87 + d) as char
    }
}

/// The characters of `bytes` in hexadecimal (as `{:02x}`, or `{:02X}` when
/// `upper`).
pub fn hex_chars(bytes: &[u8], upper: bool) -> (r: Vec<char>)
    ensures
        r@ == hex_text(bytes@, upper),
{
    let mut out: Vec<char> = Vec::new();
    let mut i: usize = 0;
    while i < bytes.len()
        invariant
            i <= bytes@.len(),
            out@ == hex_text(bytes@.take(i as int), upper),
        decreases bytes@.len() - i,
    {
        let b = bytes[i];
        proof {
            assert(bytes@.take(i + 1).drop_last() =~= bytes@.take(i as int));
        }
        out.push(hex_char(b / 16, upper));
        out.push(hex_char(b % 16, upper));
        i = i + 1;
    }
    assert(bytes@.take(i as int) =~= bytes@);
    out
}

/// `bytes` in lower-case hexadecimal (each byte as `{:02x}`).
pub fn hex_string(bytes: &[u8]) -> (r: String)
    ensures
        r@ == hex_text(bytes@, false),
{
    let chars = hex_chars(bytes, false);
    string_from_chars(&chars)
}

/// Each byte of `bytes` turns into two characters.
pub proof fn lemma_hex_text_len(bytes: Seq<u8>, upper: bool)
    ensures
        hex_text(bytes, upper).len() == 2 * bytes.len(),
    decreases bytes.len(),
{
    if bytes.len() > 0 {
        lemma_hex_text_len(bytes.drop_last(), upper);
    }
}


/// In valid UTF-8, the position after an ASCII byte that starts a character
/// starts a character too (or is the end).
pub proof fn lemma_boundary_after_ascii(bytes: Seq<u8>, i: int)
    requires
        vstd::utf8::valid_utf8(bytes),
        0 <= i < bytes.len(),
        vstd::utf8::is_char_boundary(bytes, i),
        bytes[i] < 128,
    ensures
        vstd::utf8::is_char_boundary(bytes, i + 1),
    decreases bytes.len(),
{
    let l = vstd::utf8::length_of_first_scalar(bytes);
    let pop = vstd::utf8::pop_first_scalar(bytes);
    assert(vstd::utf8::valid_first_scalar(bytes) && vstd::utf8::valid_utf8(pop));
    assert(1 <= l <= 4 && l <= bytes.len());
    assert(pop.len() == bytes.len() - l);
    if i == 0 {
        assert(l == 1);
        assert(vstd::utf8::is_char_boundary(pop, 0));
    } else {
        assert(vstd::utf8::is_char_boundary(pop, i - l));
        assert(i - l >= 0);
        assert(pop[i - l] == bytes[i]);
        lemma_boundary_after_ascii(pop, i - l);
    }
}

/// The characters of ASCII bytes.
pub open spec fn ascii_text(bytes: Seq<u8>) -> Seq<char> {
    Seq::new(bytes.len(), |i: int| bytes[i] as char)
}

/// The characters of ASCII bytes, one per byte.
pub fn ascii_chars(bytes: &[u8]) -> (r: Vec<char>)
    requires
        forall|i: int| 0 <= i < bytes@.len() ==> bytes@[i] < 128,
    ensures
        r@ == ascii_text(bytes@),
{
    let mut out: Vec<char> = Vec::new();
    let mut i: usize = 0;
    while i < bytes.len()
        invariant
            i <= bytes@.len(),
            forall|j: int| 0 <= j < bytes@.len() ==> bytes@[j] < 128,
            out@ =~= ascii_text(bytes@.take(i as int)),
        decreases bytes@.len() - i,
    {
        out.push(bytes[i] as char);
        i = i + 1;
    }
    assert(bytes@.take(i as int) =~= bytes@);
    out
}

} // verus!
