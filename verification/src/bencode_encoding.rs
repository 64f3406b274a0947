//! The bencoding of a value, written out, and the law that the decoder reads
//! it back: for every value of every kind, lists and dictionaries nested to
//! any depth included.
use vstd::prelude::*;

use crate::bencode::int_bytes;
use crate::bytes_bencode::{
    is_first, lemma_first_index, no_leading_zero, spec_decode, spec_decode_entries,
    spec_decode_int, spec_decode_items, SpecValue,
};
use crate::decimal::{is_digit, lemma_nat_digits, nat_digits, spec_parse_i64};
use crate::extension::magnet_link::bencode_out::{bencode_bytes, lemma_entries_cons, lemma_read_bytes};

verus! {

/// The bencoding of a value: `i<number>e`, `<length>:<bytes>`, `l<items>e`
/// or `d<key><value>...e`, the entries in the order given.
pub open spec fn encode(v: SpecValue) -> Seq<u8>
    decreases v, 1int,
{
    match v {
        SpecValue::Int(i) => seq![105u8] + int_bytes(i) + seq![101u8],
        SpecValue::Bytes(b) => bencode_bytes(b),
        SpecValue::List(items) => seq![108u8] + encode_items(items) + seq![101u8],
        SpecValue::Dict(entries) => seq![100u8] + encode_entries(entries) + seq![101u8],
    }
}

/// The encodings of the items of a list, one after the other.
pub open spec fn encode_items(items: Seq<SpecValue>) -> Seq<u8>
    decreases items, 0int,
{
    if items.len() == 0 {
        Seq::empty()
    } else {
        proof {
            assert(decreases_to!(items => items[0]));
            assert(decreases_to!(items => items.subrange(1, items.len() as int)));
        }
        encode(items[0]) + encode_items(items.subrange(1, items.len() as int))
    }
}

/// The entries of a dictionary, each key as a string followed by its value.
pub open spec fn encode_entries(entries: Seq<(Seq<u8>, SpecValue)>) -> Seq<u8>
    decreases entries, 0int,
{
    if entries.len() == 0 {
        Seq::empty()
    } else {
        proof {
            assert(decreases_to!(entries => entries[0]));
            assert(decreases_to!(entries[0] => entries[0].1));
            assert(decreases_to!(entries => entries.subrange(1, entries.len() as int)));
        }
        bencode_bytes(entries[0].0) + encode(entries[0].1) + encode_entries(
            entries.subrange(1, entries.len() as int),
        )
    }
}

/// Every integer of the value fits an `i64` and every string, keys
/// included, has a length that fits a `usize`: the widths the decoder reads
/// them with.
pub open spec fn fits(v: SpecValue) -> bool
    decreases v, 1int,
{
    match v {
        SpecValue::Int(i) => i64::MIN <= i <= i64::MAX,
        SpecValue::Bytes(b) => b.len() <= usize::MAX,
        SpecValue::List(items) => items_fit(items),
        SpecValue::Dict(entries) => entries_fit(entries),
    }
}

/// Every item fits.
pub open spec fn items_fit(items: Seq<SpecValue>) -> bool
    decreases items, 0int,
{
    if items.len() == 0 {
        true
    } else {
        proof {
            assert(decreases_to!(items => items[0]));
            assert(decreases_to!(items => items.subrange(1, items.len() as int)));
        }
        fits(items[0]) && items_fit(items.subrange(1, items.len() as int))
    }
}

/// Every key and every value fits.
pub open spec fn entries_fit(entries: Seq<(Seq<u8>, SpecValue)>) -> bool
    decreases entries, 0int,
{
    if entries.len() == 0 {
        true
    } else {
        proof {
            assert(decreases_to!(entries => entries[0]));
            assert(decreases_to!(entries[0] => entries[0].1));
            assert(decreases_to!(entries => entries.subrange(1, entries.len() as int)));
        }
        entries[0].0.len() <= usize::MAX && fits(entries[0].1) && entries_fit(
            entries.subrange(1, entries.len() as int),
        )
    }
}

/// A dictionary fits when each of its keys and values does.
pub proof fn lemma_entries_fit(entries: Seq<(Seq<u8>, SpecValue)>)
    requires
        forall|i: int|
            0 <= i < entries.len() ==> (#[trigger] entries[i]).0.len() <= usize::MAX && fits(
                entries[i].1,
            ),
    ensures
        entries_fit(entries),
    decreases entries.len(),
{
    if entries.len() > 0 {
        let tail = entries.subrange(1, entries.len() as int);
        assert forall|i: int| 0 <= i < tail.len() implies (#[trigger] tail[i]).0.len()
            <= usize::MAX && fits(tail[i].1) by {
            assert(tail[i] == entries[i + 1]);
        }
        lemma_entries_fit(tail);
        assert(entries[0].0.len() <= usize::MAX);
    }
}

/// Two dictionaries that fit, one after the other, fit.
pub proof fn lemma_entries_fit_concat(
    a: Seq<(Seq<u8>, SpecValue)>,
    b: Seq<(Seq<u8>, SpecValue)>,
)
    requires
        entries_fit(a),
        entries_fit(b),
    ensures
        entries_fit(a + b),
    decreases a.len(),
{
    if a.len() == 0 {
        assert(a + b =~= b);
    } else {
        let ta = a.subrange(1, a.len() as int);
        assert((a + b).subrange(1, (a + b).len() as int) =~= ta + b);
        assert((a + b)[0] == a[0]);
        lemma_entries_fit_concat(ta, b);
    }
}

/// An integer of any sign in the range of `i64`, as written, is read back,
/// whatever follows it.
proof fn lemma_read_signed_int(i: int, rest: Seq<u8>)
    requires
        i64::MIN <= i <= i64::MAX,
    ensures
        spec_decode_int(seq![105u8] + int_bytes(i) + seq![101u8] + rest) == Some(
            (i, int_bytes(i).len() + 2),
        ),
{
    let t = int_bytes(i);
    let k = t.len() as int + 1;
    let x = seq![105u8] + t + seq![101u8] + rest;
    let m: nat = if i < 0 {
        (-i) as nat
    } else {
        i as nat
    };
    let d = nat_digits(m);
    lemma_nat_digits(m);
    assert(x[k] == 101u8);
    assert forall|j: int| 0 <= j < k implies x[j] != 101u8 by {
        if j > 0 {
            assert(x[j] == t[j - 1]);
            if i < 0 {
                if j > 1 {
                    assert(t[j - 1] == d[j - 2]);
                    assert(is_digit(d[j - 2]));
                }
            } else {
                assert(is_digit(d[j - 1]));
            }
        }
    }
    assert(is_first(x, 101u8, k));
    lemma_first_index(x, 101u8, k);
    assert(x.subrange(1, k) =~= t);
    assert(is_digit(d[0]));
    if i < 0 {
        assert(t.drop_first() =~= d);
        assert(d[0] != 48u8);
    } else {
        assert(t == d);
        if m < 10 {
            assert(d.len() == 1);
        }
    }
    assert(no_leading_zero(t));
    assert(spec_parse_i64(t) == Some(i as i64));
}

/// The first item split off the rest.
proof fn lemma_encode_items_front(items: Seq<SpecValue>)
    requires
        items.len() > 0,
    ensures
        encode_items(items) == encode(items[0]) + encode_items(
            items.subrange(1, items.len() as int),
        ),
        items_fit(items) ==> fits(items[0]) && items_fit(items.subrange(1, items.len() as int)),
{
}

/// A value as written is read back, the whole of its encoding and nothing
/// more, whatever bytes follow it: integers of either sign, strings, and
/// lists and dictionaries of any values, nested to any depth.
pub proof fn lemma_decode_encoded(v: SpecValue, rest: Seq<u8>)
    requires
        fits(v),
    ensures
        spec_decode(encode(v) + rest) == Some((v, encode(v).len())),
    decreases v, 1int,
{
    let x = encode(v) + rest;
    match v {
        SpecValue::Int(i) => {
            lemma_read_signed_int(i, rest);
            assert(x =~= seq![105u8] + int_bytes(i) + seq![101u8] + rest);
            assert(x[0] == 105u8);
        },
        SpecValue::Bytes(b) => {
            lemma_read_bytes(b, rest);
        },
        SpecValue::List(items) => {
            assert(x[0] == 108u8);
            assert(x.skip(1) =~= encode_items(items) + seq![101u8] + rest);
            lemma_decode_encoded_items(items, rest);
        },
        SpecValue::Dict(entries) => {
            assert(x[0] == 100u8);
            assert(x.skip(1) =~= encode_entries(entries) + seq![101u8] + rest);
            lemma_decode_encoded_entries(entries, rest);
        },
    }
}

/// The body of a list as written, up to its closing `e`, is read back.
proof fn lemma_decode_encoded_items(items: Seq<SpecValue>, rest: Seq<u8>)
    requires
        items_fit(items),
    ensures
        spec_decode_items(encode_items(items) + seq![101u8] + rest) == Some(
            (items, encode_items(items).len() + 1),
        ),
    decreases items, 0int,
{
    let x = encode_items(items) + seq![101u8] + rest;
    if items.len() == 0 {
        assert(x[0] == 101u8);
        assert(items =~= Seq::<SpecValue>::empty());
    } else {
        let tail = items.subrange(1, items.len() as int);
        let first = encode(items[0]);
        let after = encode_items(tail) + seq![101u8] + rest;
        lemma_encode_items_front(items);
        assert(x =~= first + after);
        lemma_decode_encoded(items[0], after);
        lemma_decode_encoded_items(tail, rest);
        crate::bytes_bencode::lemma_decode_len(x);
        if x[0] == 101u8 {
            lemma_first_not_end(items[0], after);
        }
        assert(x.skip(first.len() as int) =~= after);
        assert(seq![items[0]] + tail =~= items);
    }
}

/// No encoding starts with `e`.
proof fn lemma_first_not_end(v: SpecValue, rest: Seq<u8>)
    requires
        fits(v),
    ensures
        (encode(v) + rest)[0] != 101u8,
{
    match v {
        SpecValue::Bytes(b) => {
            lemma_read_bytes(b, rest);
        },
        _ => {},
    }
}

/// The first entry split off the rest.
proof fn lemma_encode_entries_front(entries: Seq<(Seq<u8>, SpecValue)>)
    requires
        entries.len() > 0,
    ensures
        encode_entries(entries) == bencode_bytes(entries[0].0) + encode(entries[0].1)
            + encode_entries(entries.subrange(1, entries.len() as int)),
        entries_fit(entries) ==> entries[0].0.len() <= usize::MAX && fits(entries[0].1)
            && entries_fit(entries.subrange(1, entries.len() as int)),
{
}

/// The body of a dictionary as written, up to its closing `e`, is read back.
proof fn lemma_decode_encoded_entries(entries: Seq<(Seq<u8>, SpecValue)>, rest: Seq<u8>)
    requires
        entries_fit(entries),
    ensures
        spec_decode_entries(encode_entries(entries) + seq![101u8] + rest) == Some(
            (entries, encode_entries(entries).len() + 1),
        ),
    decreases entries, 0int,
{
    let x = encode_entries(entries) + seq![101u8] + rest;
    if entries.len() == 0 {
        assert(x[0] == 101u8);
        assert(entries =~= Seq::<(Seq<u8>, SpecValue)>::empty());
    } else {
        let tail = entries.subrange(1, entries.len() as int);
        let k = entries[0].0;
        let v = entries[0].1;
        let kb = bencode_bytes(k);
        let vb = encode(v);
        let after = encode_entries(tail) + seq![101u8] + rest;
        lemma_encode_entries_front(entries);
        assert(x =~= kb + (vb + after));
        lemma_read_bytes(k, vb + after);
        assert(x.skip(kb.len() as int) =~= vb + after);
        lemma_decode_encoded(v, after);
        crate::bytes_bencode::lemma_decode_len(vb + after);
        assert(x.skip((kb.len() + vb.len()) as int) =~= after);
        lemma_decode_encoded_entries(tail, rest);
        assert(x.len() == kb.len() + vb.len() + after.len());
        assert(after.len() == encode_entries(tail).len() + 1 + rest.len());
        lemma_entries_cons(
            x,
            k,
            kb.len(),
            v,
            vb.len(),
            tail,
            encode_entries(tail).len() + 1,
        );
        assert(seq![(k, v)] + tail =~= entries);
    }
}

/// A list of any values, lists and dictionaries among them, is read back: the
/// bytes `l`, the items' encodings one after the other and `e` give that list
/// and take exactly those bytes, two more than the items' encodings together,
/// whatever follows.
pub proof fn lemma_decode_list(items: Seq<SpecValue>, rest: Seq<u8>)
    requires
        items_fit(items),
    ensures
        spec_decode(seq![108u8] + encode_items(items) + seq![101u8] + rest) == Some(
            (SpecValue::List(items), encode_items(items).len() + 2),
        ),
{
    lemma_decode_encoded(SpecValue::List(items), rest);
}

/// A list body with no closing `e` is refused.
proof fn lemma_items_unterminated(items: Seq<SpecValue>)
    requires
        items_fit(items),
    ensures
        spec_decode_items(encode_items(items)) is None,
    decreases items.len(),
{
    if items.len() > 0 {
        let tail = items.subrange(1, items.len() as int);
        let x = encode_items(items);
        lemma_encode_items_front(items);
        lemma_decode_encoded(items[0], encode_items(tail));
        if x[0] == 101u8 {
            lemma_first_not_end(items[0], encode_items(tail));
        }
        assert(x.skip(encode(items[0]).len() as int) =~= encode_items(tail));
        lemma_items_unterminated(tail);
    }
}

/// A dictionary body with no closing `e` is refused.
proof fn lemma_entries_unterminated(entries: Seq<(Seq<u8>, SpecValue)>)
    requires
        entries_fit(entries),
    ensures
        spec_decode_entries(encode_entries(entries)) is None,
    decreases entries.len(),
{
    if entries.len() > 0 {
        let tail = entries.subrange(1, entries.len() as int);
        let k = entries[0].0;
        let v = entries[0].1;
        let kb = bencode_bytes(k);
        let vb = encode(v);
        let after = encode_entries(tail);
        let x = encode_entries(entries);
        lemma_encode_entries_front(entries);
        assert(x =~= kb + (vb + after));
        lemma_read_bytes(k, vb + after);
        assert(x.skip(kb.len() as int) =~= vb + after);
        lemma_decode_encoded(v, after);
        assert(x.skip((kb.len() + vb.len()) as int) =~= after);
        lemma_entries_unterminated(tail);
    }
}

/// A list or a dictionary whose closing `e` is missing is refused, however
/// well formed its items or entries are.
pub proof fn lemma_unterminated_refused(items: Seq<SpecValue>, entries: Seq<(Seq<u8>, SpecValue)>)
    requires
        items_fit(items),
        entries_fit(entries),
    ensures
        spec_decode(seq![108u8] + encode_items(items)) is None,
        spec_decode(seq![100u8] + encode_entries(entries)) is None,
{
    let l = seq![108u8] + encode_items(items);
    let d = seq![100u8] + encode_entries(entries);
    assert(l.skip(1) =~= encode_items(items));
    assert(d.skip(1) =~= encode_entries(entries));
    assert(l[0] == 108u8 && d[0] == 100u8);
    lemma_items_unterminated(items);
    lemma_entries_unterminated(entries);
}

} // verus!
