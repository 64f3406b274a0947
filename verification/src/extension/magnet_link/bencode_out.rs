//! Bencoded dictionaries written by `serde_bencode`, as the extension
//! messages carry them.
use vstd::prelude::*;
use std::collections::BTreeMap;

use crate::bytes_bencode::{
    first_index, is_first, lemma_first_index, no_leading_zero, spec_decode, spec_decode_entries,
    spec_decode_int, spec_decode_str, SpecValue,
};
use crate::decimal::{
    all_digits, digits_value, is_digit, lemma_nat_digits, nat_digits, spec_parse_i64,
    spec_parse_usize, spec_signed_text, spec_unsigned_text,
};

verus! {

/// `a` comes before `b` in byte order (a proper prefix comes first).
pub open spec fn bytes_lt(a: Seq<u8>, b: Seq<u8>) -> bool
    decreases a.len(),
{
    if a.len() == 0 {
        b.len() > 0
    } else if b.len() == 0 {
        false
    } else if a[0] != b[0] {
        a[0] < b[0]
    } else {
        bytes_lt(a.skip(1), b.skip(1))
    }
}

/// The keys, as bytes, rise strictly.
pub open spec fn keys_rise<V>(e: Seq<(Seq<u8>, V)>) -> bool {
    forall|i: int, j: int| 0 <= i < j < e.len() ==> bytes_lt(e[i].0, e[j].0)
}

/// A bencoded string: its length in decimal, `:`, its bytes.
pub open spec fn bencode_bytes(s: Seq<u8>) -> Seq<u8> {
    nat_digits(s.len()) + seq![58u8] + s
}

/// A bencoded integer: `i`, the number in decimal, `e`.
pub open spec fn bencode_int(n: nat) -> Seq<u8> {
    seq![105u8] + nat_digits(n) + seq![101u8]
}

/// The entries of a dictionary of integers, each key followed by its value.
pub open spec fn int_entries(e: Seq<(Seq<u8>, nat)>) -> Seq<u8>
    decreases e.len(),
{
    if e.len() == 0 {
        Seq::empty()
    } else {
        int_entries(e.drop_last()) + bencode_bytes(e.last().0) + bencode_int(e.last().1)
    }
}

/// A bencoded dictionary of integers.
pub open spec fn int_dict(e: Seq<(Seq<u8>, nat)>) -> Seq<u8> {
    seq![100u8] + int_entries(e) + seq![101u8]
}

/// The decoded form of a dictionary of integers.
pub open spec fn int_values(e: Seq<(Seq<u8>, nat)>) -> Seq<(Seq<u8>, SpecValue)> {
    Seq::new(e.len(), |i: int| (e[i].0, SpecValue::Int(e[i].1 as int)))
}

/// Every key fits a `usize` length and every number an `i64`, the widths the
/// decoder reads them with.
pub open spec fn readable_entries(e: Seq<(Seq<u8>, nat)>) -> bool {
    forall|i: int| 0 <= i < e.len() ==> (#[trigger] e[i]).0.len() <= usize::MAX && e[i].1 <= i64::MAX
}

/// The decimal digits of a number read back as that number.
proof fn lemma_digits_read(n: nat)
    ensures
        spec_unsigned_text(nat_digits(n)) == Some(n),
        spec_signed_text(nat_digits(n)) == Some(n as int),
        is_digit(nat_digits(n)[0]),
{
    lemma_nat_digits(n);
    let d = nat_digits(n);
    assert(is_digit(d[0]));
}

/// A string as the library writes it is read back, whatever follows it.
pub proof fn lemma_read_bytes(s: Seq<u8>, rest: Seq<u8>)
    requires
        s.len() <= usize::MAX,
    ensures
        spec_decode_str(bencode_bytes(s) + rest) == Some((s, bencode_bytes(s).len())),
        is_digit((bencode_bytes(s) + rest)[0]),
{
    let d = nat_digits(s.len());
    lemma_nat_digits(s.len());
    lemma_digits_read(s.len());
    let x = bencode_bytes(s) + rest;
    let c = d.len() as int;
    assert(x[c] == 58u8);
    assert forall|j: int| 0 <= j < c implies x[j] != 58u8 by {
        assert(x[j] == d[j]);
        assert(is_digit(d[j]));
    }
    assert(is_first(x, 58u8, c));
    lemma_first_index(x, 58u8, c);
    assert(x.take(c) =~= d);
    assert(spec_parse_usize(d) == Some(s.len() as usize));
    assert(x.subrange(c + 1, c + 1 + s.len()) =~= s);
    assert(x[0] == d[0]);
}

/// A number as the library writes it is read back, whatever follows it.
pub proof fn lemma_read_int(n: nat, rest: Seq<u8>)
    requires
        n <= i64::MAX,
    ensures
        spec_decode_int(bencode_int(n) + rest) == Some((n as int, bencode_int(n).len())),
        spec_decode(bencode_int(n) + rest) == Some((SpecValue::Int(n as int), bencode_int(n).len())),
{
    let d = nat_digits(n);
    lemma_nat_digits(n);
    lemma_digits_read(n);
    let x = bencode_int(n) + rest;
    let k = d.len() as int + 1;
    assert(x[k] == 101u8);
    assert forall|j: int| 0 <= j < k implies x[j] != 101u8 by {
        if j > 0 {
            assert(x[j] == d[j - 1]);
            assert(is_digit(d[j - 1]));
        }
    }
    assert(is_first(x, 101u8, k));
    lemma_first_index(x, 101u8, k);
    assert(x.subrange(1, k) =~= d);
    if n < 10 {
        assert(d.len() == 1);
    }
    assert(no_leading_zero(d));
    assert(spec_parse_i64(d) == Some(n as i64));
    assert(x[0] == 105u8);
    assert(!is_digit(x[0]));
}

/// The entries as written, the first one split off.
proof fn lemma_int_entries_front(e: Seq<(Seq<u8>, nat)>)
    requires
        e.len() > 0,
    ensures
        int_entries(e) == bencode_bytes(e[0].0) + bencode_int(e[0].1) + int_entries(e.drop_first()),
    decreases e.len(),
{
    if e.len() == 1 {
        assert(e.drop_last() =~= Seq::<(Seq<u8>, nat)>::empty());
        assert(e.drop_first() =~= Seq::<(Seq<u8>, nat)>::empty());
        assert(int_entries(e) =~= bencode_bytes(e[0].0) + bencode_int(e[0].1));
    } else {
        let init = e.drop_last();
        lemma_int_entries_front(init);
        assert(init.drop_first() =~= e.drop_first().drop_last());
        assert(e.drop_first().last() == e.last());
        assert(int_entries(e) =~= bencode_bytes(e[0].0) + bencode_int(e[0].1) + int_entries(
            e.drop_first(),
        ));
    }
}

/// What follows the first entry is readable too.
proof fn lemma_readable_tail(e: Seq<(Seq<u8>, nat)>)
    requires
        readable_entries(e),
        e.len() > 0,
    ensures
        readable_entries(e.drop_first()),
        e[0].0.len() <= usize::MAX && e[0].1 <= i64::MAX,
{
    let tail = e.drop_first();
    assert forall|i: int| 0 <= i < tail.len() implies (#[trigger] tail[i]).0.len() <= usize::MAX
        && tail[i].1 <= i64::MAX by {
        assert(tail[i] == e[i + 1]);
    }
    assert(e[0].0.len() <= usize::MAX);
}

/// One entry in front of the rest of a dictionary body.
pub proof fn lemma_entries_cons(
    x: Seq<u8>,
    k: Seq<u8>,
    n: nat,
    v: SpecValue,
    m: nat,
    tail: Seq<(Seq<u8>, SpecValue)>,
    r: nat,
)
    requires
        x.len() > 0,
        is_digit(x[0]),
        spec_decode_str(x) == Some((k, n)),
        0 < n <= x.len(),
        spec_decode(x.skip(n as int)) == Some((v, m)),
        0 < m <= x.len() - n,
        spec_decode_entries(x.skip((n + m) as int)) == Some((tail, r)),
    ensures
        spec_decode_entries(x) == Some((seq![(k, v)] + tail, n + m + r)),
{
}

/// The body of a dictionary as written, up to its closing `e`, is read back.
proof fn lemma_read_int_entries(e: Seq<(Seq<u8>, nat)>, rest: Seq<u8>)
    requires
        readable_entries(e),
    ensures
        spec_decode_entries(int_entries(e) + seq![101u8] + rest) == Some(
            (int_values(e), int_entries(e).len() + 1),
        ),
    decreases e.len(),
{
    let x = int_entries(e) + seq![101u8] + rest;
    if e.len() == 0 {
        assert(int_entries(e) =~= Seq::<u8>::empty());
        assert(x[0] == 101u8);
        assert(int_values(e) =~= Seq::<(Seq<u8>, SpecValue)>::empty());
    } else {
        let tail = e.drop_first();
        let bb = bencode_bytes(e[0].0);
        let bi = bencode_int(e[0].1);
        let after = int_entries(tail) + seq![101u8] + rest;
        lemma_int_entries_front(e);
        lemma_readable_tail(e);
        assert(x =~= bb + (bi + after));
        lemma_read_bytes(e[0].0, bi + after);
        assert(x.skip(bb.len() as int) =~= bi + after);
        lemma_read_int(e[0].1, after);
        assert(x.skip((bb.len() + bi.len()) as int) =~= after);
        lemma_read_int_entries(tail, rest);
        lemma_entries_cons(
            x,
            e[0].0,
            bb.len(),
            SpecValue::Int(e[0].1 as int),
            bi.len(),
            int_values(tail),
            int_entries(tail).len() + 1,
        );
        assert(seq![(e[0].0, SpecValue::Int(e[0].1 as int))] + int_values(tail) =~= int_values(e));
    }
}

/// Decoding a dictionary of integers as the library writes it gives back its
/// entries, in order, and the length of what was written, whatever bytes
/// follow it.
pub proof fn lemma_int_dict_roundtrip(e: Seq<(Seq<u8>, nat)>, rest: Seq<u8>)
    requires
        readable_entries(e),
    ensures
        spec_decode(int_dict(e) + rest) == Some((SpecValue::Dict(int_values(e)), int_dict(e).len())),
{
    let x = int_dict(e) + rest;
    assert(x[0] == 100u8);
    assert(x.skip(1) =~= int_entries(e) + seq![101u8] + rest);
    lemma_read_int_entries(e, rest);
}

/// Entries with text keys as bytes and numbers.
pub open spec fn entries_u64(v: Seq<(String, u64)>) -> Seq<(Seq<u8>, nat)> {
    Seq::new(v.len(), |i: int| (vstd::utf8::encode_utf8(v[i].0@), v[i].1 as nat))
}

/// Entries with text keys as bytes and numbers.
pub open spec fn entries_u8(v: Seq<(String, u8)>) -> Seq<(Seq<u8>, nat)> {
    Seq::new(v.len(), |i: int| (vstd::utf8::encode_utf8(v[i].0@), v[i].1 as nat))
}

/// `serde_bencode::to_bytes` on a map from texts to numbers. Trusted, from the
/// crate's source: a map is written as `d`, its entries ordered by the bytes
/// of their keys, `e`; a key as a byte string and a number as `i<decimal>e`;
/// writing such a map does not fail. Keys given in rising order come out in
/// that order.
#[verifier::external_body]
pub(crate) fn bencode_int_map(entries: &Vec<(String, u64)>) -> (r: Option<Vec<u8>>)
    requires
        keys_rise(entries_u64(entries@)),
    ensures
        r is Some,
        r->0@ == int_dict(entries_u64(entries@)),
{
    let map: BTreeMap<&str, u64> = entries.iter().map(|e| (e.0.as_str(), e.1)).collect();
    serde_bencode::to_bytes(&map).ok()
}

} // verus!
