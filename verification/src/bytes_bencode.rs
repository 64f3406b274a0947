//! Bencode decoding over raw bytes.
//!
//! Grammar: a string is `<length>:<bytes>`, an integer `i<number>e`, a list
//! `l<values>e` and a dictionary `d<string><value>...e`. An integer written
//! with a leading zero (`i05e`, `i-0e`) is malformed; `i0e` is zero.
use vstd::prelude::*;

use crate::decimal::{is_digit, parse_i64, parse_usize, spec_parse_i64, spec_parse_usize};

verus! {

/// A bencoded value in mathematical form.
pub enum SpecValue {
    Int(int),
    Bytes(Seq<u8>),
    List(Seq<SpecValue>),
    Dict(Seq<(Seq<u8>, SpecValue)>),
}

/// A decoded bencode value. A dictionary keeps its entries in the order in
/// which they were written.
#[derive(Debug)]
pub enum BencodeValue {
    Int(i64),
    Bytes(Vec<u8>),
    List(Vec<BencodeValue>),
    Dict(Vec<(Vec<u8>, BencodeValue)>),
}

impl BencodeValue {
    /// The mathematical value that this value stands for.
    pub open spec fn view_value(&self) -> SpecValue
        decreases self,
    {
        match self {
            BencodeValue::Int(i) => SpecValue::Int(*i as int),
            BencodeValue::Bytes(b) => SpecValue::Bytes(b@),
            BencodeValue::List(l) => SpecValue::List(
                Seq::new(
                    l.len() as nat,
                    |i: int|
                        if 0 <= i < l.len() {
                            proof {
                                assert(decreases_to!(l => l@));
                                assert(decreases_to!(l@ => l@[i]));
                            }
                            l@[i].view_value()
                        } else {
                            SpecValue::Int(0)
                        },
                ),
            ),
            BencodeValue::Dict(d) => SpecValue::Dict(
                Seq::new(
                    d.len() as nat,
                    |i: int|
                        if 0 <= i < d.len() {
                            proof {
                                assert(decreases_to!(d => d@));
                                assert(decreases_to!(d@ => d@[i]));
                                assert(decreases_to!(d@[i] => d@[i].1));
                            }
                            (d@[i].0@, d@[i].1.view_value())
                        } else {
                            (Seq::empty(), SpecValue::Int(0))
                        },
                ),
            ),
        }
    }
}

/// The views of a sequence of values.
pub open spec fn view_values(l: Seq<BencodeValue>) -> Seq<SpecValue> {
    Seq::new(l.len(), |i: int| l[i].view_value())
}

/// The views of a sequence of dictionary entries.
pub open spec fn view_entries(d: Seq<(Vec<u8>, BencodeValue)>) -> Seq<(Seq<u8>, SpecValue)> {
    Seq::new(d.len(), |i: int| (d[i].0@, d[i].1.view_value()))
}

/// `i` is the position of the first occurrence of `b` in `s`.
pub open spec fn is_first(s: Seq<u8>, b: u8, i: int) -> bool {
    &&& 0 <= i < s.len()
    &&& s[i] == b
    &&& forall|j: int| 0 <= j < i ==> s[j] != b
}

/// The position of the first occurrence of `b` in `s`, if any.
pub open spec fn first_index(s: Seq<u8>, b: u8) -> Option<int> {
    if exists|i: int| is_first(s, b, i) {
        Some(choose|i: int| is_first(s, b, i))
    } else {
        None
    }
}

/// The first occurrence is unique.
pub proof fn lemma_first_index(s: Seq<u8>, b: u8, i: int)
    requires
        is_first(s, b, i),
    ensures
        first_index(s, b) == Some(i),
{
    let k = choose|k: int| is_first(s, b, k);
    assert(is_first(s, b, k));
    if k < i {
        assert(s[k] != b);
    }
    if i < k {
        assert(s[i] != b);
    }
}

/// A byte that does not occur has no first occurrence.
pub proof fn lemma_first_index_none(s: Seq<u8>, b: u8)
    requires
        forall|j: int| 0 <= j < s.len() ==> s[j] != b,
    ensures
        first_index(s, b) is None,
{
    if exists|i: int| is_first(s, b, i) {
        let k = choose|k: int| is_first(s, b, k);
        assert(s[k] == b);
    }
}

/// `<length>:<bytes>` at the start of `s`: the bytes and the number of bytes
/// read. The length is read as `str::parse::<usize>` reads it.
pub open spec fn spec_decode_str(s: Seq<u8>) -> Option<(Seq<u8>, nat)> {
    match first_index(s, 58) {
        Some(c) => match spec_parse_usize(s.take(c)) {
            Some(n) => if c + 1 + n <= s.len() {
                Some((s.subrange(c + 1, c + 1 + n), (c + 1 + n) as nat))
            } else {
                None
            },
            None => None,
        },
        None => None,
    }
}

/// The digits of an integer carry no leading zero, except for `0` itself.
pub open spec fn no_leading_zero(t: Seq<u8>) -> bool {
    !(t.len() > 1 && (t[0] == 48 || (t[0] == 45 && t[1] == 48)))
}

/// `i<number>e` at the start of `s`: the number and the number of bytes read.
/// The first byte is the marker; the number runs up to the first `e`.
pub open spec fn spec_decode_int(s: Seq<u8>) -> Option<(int, nat)> {
    match first_index(s, 101) {
        Some(k) => if k >= 1 && no_leading_zero(s.subrange(1, k)) {
            match spec_parse_i64(s.subrange(1, k)) {
                Some(v) => Some((v as int, (k + 1) as nat)),
                None => None,
            }
        } else {
            None
        },
        None => None,
    }
}

/// The value encoded at the start of `s` and the number of bytes it takes.
pub open spec fn spec_decode(s: Seq<u8>) -> Option<(SpecValue, nat)>
    decreases s.len(), 0int,
{
    if s.len() == 0 {
        None
    } else if is_digit(s[0]) {
        match spec_decode_str(s) {
            Some((b, n)) => Some((SpecValue::Bytes(b), n)),
            None => None,
        }
    } else if s[0] == 105 {
        match spec_decode_int(s) {
            Some((v, n)) => Some((SpecValue::Int(v), n)),
            None => None,
        }
    } else if s[0] == 108 {
        match spec_decode_items(s.skip(1)) {
            Some((items, n)) => Some((SpecValue::List(items), n + 1)),
            None => None,
        }
    } else if s[0] == 100 {
        match spec_decode_entries(s.skip(1)) {
            Some((entries, n)) => Some((SpecValue::Dict(entries), n + 1)),
            None => None,
        }
    } else {
        None
    }
}

/// The values of a list body up to and including its closing `e`.
pub open spec fn spec_decode_items(s: Seq<u8>) -> Option<(Seq<SpecValue>, nat)>
    decreases s.len(), 1int,
{
    if s.len() == 0 {
        None
    } else if s[0] == 101 {
        Some((Seq::empty(), 1))
    } else {
        match spec_decode(s) {
            Some((v, n)) => if 0 < n <= s.len() {
                match spec_decode_items(s.skip(n as int)) {
                    Some((rest, m)) => Some((seq![v] + rest, n + m)),
                    None => None,
                }
            } else {
                None
            },
            None => None,
        }
    }
}

/// The entries of a dictionary body up to and including its closing `e`.
/// Each key is a bencoded string.
pub open spec fn spec_decode_entries(s: Seq<u8>) -> Option<(Seq<(Seq<u8>, SpecValue)>, nat)>
    decreases s.len(), 1int,
{
    if s.len() == 0 {
        None
    } else if s[0] == 101 {
        Some((Seq::empty(), 1))
    } else if !is_digit(s[0]) {
        None
    } else {
        match spec_decode_str(s) {
            Some((k, n)) => if 0 < n <= s.len() {
                match spec_decode(s.skip(n as int)) {
                    Some((v, m)) => if 0 < m <= s.len() - n {
                        match spec_decode_entries(s.skip((n + m) as int)) {
                            Some((rest, r)) => Some((seq![(k, v)] + rest, n + m + r)),
                            None => None,
                        }
                    } else {
                        None
                    },
                    None => None,
                }
            } else {
                None
            },
            None => None,
        }
    }
}

/// Puts decoded items in front of the result of decoding the rest.
pub open spec fn prepend_items(
    prefix: Seq<SpecValue>,
    k: nat,
    r: Option<(Seq<SpecValue>, nat)>,
) -> Option<(Seq<SpecValue>, nat)> {
    match r {
        Some((rest, m)) => Some((prefix + rest, k + m)),
        None => None,
    }
}

/// Puts decoded entries in front of the result of decoding the rest.
pub open spec fn prepend_entries(
    prefix: Seq<(Seq<u8>, SpecValue)>,
    k: nat,
    r: Option<(Seq<(Seq<u8>, SpecValue)>, nat)>,
) -> Option<(Seq<(Seq<u8>, SpecValue)>, nat)> {
    match r {
        Some((rest, m)) => Some((prefix + rest, k + m)),
        None => None,
    }
}

/// Position of the first `b` in `s`.
pub fn position_of(s: &[u8], b: u8) -> (r: Option<usize>)
    ensures
        match r {
            Some(i) => first_index(s@, b) == Some(i as int) && is_first(s@, b, i as int),
            None => first_index(s@, b) is None,
        },
{
    let mut i: usize = 0;
    while i < s.len()
        invariant
            i <= s@.len(),
            forall|j: int| 0 <= j < i ==> s@[j] != b,
        decreases s.len() - i,
    {
        if s[i] == b {
            proof {
                lemma_first_index(s@, b, i as int);
            }
            return Some(i);
        }
        i = i + 1;
    }
    proof {
        lemma_first_index_none(s@, b);
    }
    None
}

/// Reads `<length>:<bytes>` at the start of `s`.
fn decode_str_at(s: &[u8]) -> (r: Option<(Vec<u8>, usize)>)
    ensures
        match r {
            Some((b, n)) => spec_decode_str(s@) == Some((b@, n as nat)),
            None => spec_decode_str(s@) is None,
        },
{
    match position_of(s, 58) {
        Some(c) => {
            let head = &s[0..c];
            assert(head@ =~= s@.take(c as int));
            match parse_usize(head) {
                Some(n) => {
                    if n <= s.len() - c - 1 {
                        let start = c + 1;
                        let end = start + n;
                        let v = vstd::slice::slice_to_vec(&s[start..end]);
                        assert(v@ =~= s@.subrange(start as int, end as int));
                        Some((v, end))
                    } else {
                        None
                    }
                },
                None => None,
            }
        },
        None => None,
    }
}

/// Reads `i<number>e` at the start of `s`.
fn decode_int_at(s: &[u8]) -> (r: Option<(i64, usize)>)
    ensures
        match r {
            Some((v, n)) => spec_decode_int(s@) == Some((v as int, n as nat)),
            None => spec_decode_int(s@) is None,
        },
{
    match position_of(s, 101) {
        Some(k) => {
            if k < 1 {
                return None;
            }
            let t = &s[1..k];
            assert(t@ =~= s@.subrange(1, k as int));
            if t.len() > 1 && (t[0] == 48 || (t[0] == 45 && t[1] == 48)) {
                return None;
            }
            match parse_i64(t) {
                Some(v) => {
                    assert(k < s.len());
                    Some((v, k + 1))
                },
                None => None,
            }
        },
        None => None,
    }
}

/// Decodes the value at the start of `s`; returns it with the number of bytes
/// it takes.
pub fn decode_prefix(s: &[u8]) -> (r: Option<(BencodeValue, usize)>)
    ensures
        match r {
            Some((v, n)) => spec_decode(s@) == Some((v.view_value(), n as nat)) && 0 < n
                <= s@.len(),
            None => spec_decode(s@) is None,
        },
    decreases s@.len(), 1int,
{
    proof {
        lemma_decode_len(s@);
    }
    if s.len() == 0 {
        return None;
    }
    let first = s[0];
    if 48 <= first && first <= 57 {
        match decode_str_at(s) {
            Some((b, n)) => Some((BencodeValue::Bytes(b), n)),
            None => None,
        }
    } else if first == 105 {
        match decode_int_at(s) {
            Some((v, n)) => Some((BencodeValue::Int(v), n)),
            None => None,
        }
    } else if first == 108 {
        decode_list_at(s)
    } else if first == 100 {
        decode_dict_at(s)
    } else {
        None
    }
}

/// Decodes the list that starts at `s[0]`.
fn decode_list_at(s: &[u8]) -> (r: Option<(BencodeValue, usize)>)
    requires
        s@.len() > 0,
        s@[0] == 108,
    ensures
        match r {
            Some((v, n)) => spec_decode(s@) == Some((v.view_value(), n as nat)) && 0 < n
                <= s@.len(),
            None => spec_decode(s@) is None,
        },
    decreases s@.len(), 0int,
{
    let mut items: Vec<BencodeValue> = Vec::new();
    let mut pos: usize = 1;
    assert(s@.skip(1) =~= s@.skip(pos as int));
    assert(items@ =~= Seq::<BencodeValue>::empty());
    assert(view_values(items@) =~= Seq::<SpecValue>::empty());
    loop
        invariant
            1 <= pos <= s@.len(),
            s@[0] == 108,
            spec_decode_items(s@.skip(1)) == prepend_items(
                view_values(items@),
                (pos - 1) as nat,
                spec_decode_items(s@.skip(pos as int)),
            ),
        decreases s@.len() - pos,
    {
        proof {
            lemma_items_len(s@.skip(pos as int));
        }
        if pos >= s.len() {
            return None;
        }
        if s[pos] == 101 {
            let n = pos + 1;
            let v = BencodeValue::List(items);
            proof {
                lemma_view_list(v);
                assert(view_values(items@) + Seq::<SpecValue>::empty() =~= view_values(
                    items@,
                ));
            }
            return Some((v, n));
        }
        let rest = &s[pos..s.len()];
        assert(rest@ =~= s@.skip(pos as int));
        match decode_prefix(rest) {
            Some((v, n)) => {
                let ghost old_items = items@;
                proof {
                    assert(s@.skip(pos as int).skip(n as int) =~= s@.skip(pos + n));
                    assert(view_values(old_items.push(v)) =~= view_values(old_items) + seq![
                        v.view_value(),
                    ]);
                    assert((view_values(old_items) + seq![v.view_value()])
                        =~= view_values(old_items).push(v.view_value()));
                    lemma_prepend_items_assoc(
                        view_values(old_items),
                        seq![v.view_value()],
                        (pos - 1) as nat,
                        n as nat,
                        spec_decode_items(s@.skip(pos + n)),
                    );
                }
                items.push(v);
                pos = pos + n;
            },
            None => {
                return None;
            },
        }
    }
}

/// Decodes the dictionary that starts at `s[0]`.
fn decode_dict_at(s: &[u8]) -> (r: Option<(BencodeValue, usize)>)
    requires
        s@.len() > 0,
        s@[0] == 100,
    ensures
        match r {
            Some((v, n)) => spec_decode(s@) == Some((v.view_value(), n as nat)) && 0 < n
                <= s@.len(),
            None => spec_decode(s@) is None,
        },
    decreases s@.len(), 0int,
{
    let mut entries: Vec<(Vec<u8>, BencodeValue)> = Vec::new();
    let mut pos: usize = 1;
    assert(s@.skip(1) =~= s@.skip(pos as int));
    assert(view_entries(entries@) =~= Seq::<(Seq<u8>, SpecValue)>::empty());
    loop
        invariant
            1 <= pos <= s@.len(),
            s@[0] == 100,
            spec_decode_entries(s@.skip(1)) == prepend_entries(
                view_entries(entries@),
                (pos - 1) as nat,
                spec_decode_entries(s@.skip(pos as int)),
            ),
        decreases s@.len() - pos,
    {
        proof {
            lemma_entries_len(s@.skip(pos as int));
        }
        if pos >= s.len() {
            return None;
        }
        if s[pos] == 101 {
            let n = pos + 1;
            let v = BencodeValue::Dict(entries);
            proof {
                lemma_view_dict(v);
                assert(view_entries(entries@) + Seq::<(Seq<u8>, SpecValue)>::empty()
                    =~= view_entries(entries@));
            }
            return Some((v, n));
        }
        if !(48 <= s[pos] && s[pos] <= 57) {
            return None;
        }
        let rest = &s[pos..s.len()];
        assert(rest@ =~= s@.skip(pos as int));
        match decode_str_at(rest) {
            Some((k, n)) => {
                proof {
                    lemma_decode_str_len(rest@);
                }
                let rest2 = &s[pos + n..s.len()];
                assert(rest2@ =~= s@.skip(pos as int).skip(n as int));
                match decode_prefix(rest2) {
                    Some((v, m)) => {
                        let ghost old_entries = entries@;
                        let ghost kv = (k@, v.view_value());
                        proof {
                            assert(s@.skip(pos as int).skip(n + m) =~= s@.skip(pos + n + m));
                            assert(view_entries(old_entries.push((k, v))) =~= view_entries(
                                old_entries,
                            ) + seq![kv]);
                            lemma_prepend_entries_assoc(
                                view_entries(old_entries),
                                seq![kv],
                                (pos - 1) as nat,
                                (n + m) as nat,
                                spec_decode_entries(s@.skip(pos + n + m)),
                            );
                        }
                        entries.push((k, v));
                        pos = pos + n + m;
                    },
                    None => {
                        return None;
                    },
                }
            },
            None => {
                return None;
            },
        }
    }
}

/// The view of a list is the views of its items.
pub proof fn lemma_view_list(v: BencodeValue)
    requires
        v is List,
    ensures
        v.view_value() == SpecValue::List(view_values(v->List_0@)),
{
    if let SpecValue::List(x) = v.view_value() {
        assert(x =~= view_values(v->List_0@));
    }
}

/// The view of a dictionary is the views of its entries.
pub proof fn lemma_view_dict(v: BencodeValue)
    requires
        v is Dict,
    ensures
        v.view_value() == SpecValue::Dict(view_entries(v->Dict_0@)),
{
    if let SpecValue::Dict(x) = v.view_value() {
        assert(x =~= view_entries(v->Dict_0@));
    }
}

proof fn lemma_prepend_items_assoc(
    a: Seq<SpecValue>,
    b: Seq<SpecValue>,
    k: nat,
    n: nat,
    r: Option<(Seq<SpecValue>, nat)>,
)
    ensures
        prepend_items(a, k, prepend_items(b, n, r)) == prepend_items(a + b, k + n, r),
{
    match r {
        Some((rest, m)) => {
            assert(a + (b + rest) =~= (a + b) + rest);
        },
        None => {},
    }
}

proof fn lemma_prepend_entries_assoc(
    a: Seq<(Seq<u8>, SpecValue)>,
    b: Seq<(Seq<u8>, SpecValue)>,
    k: nat,
    n: nat,
    r: Option<(Seq<(Seq<u8>, SpecValue)>, nat)>,
)
    ensures
        prepend_entries(a, k, prepend_entries(b, n, r)) == prepend_entries(a + b, k + n, r),
{
    match r {
        Some((rest, m)) => {
            assert(a + (b + rest) =~= (a + b) + rest);
        },
        None => {},
    }
}

/// A decoded string takes at least its `:` and at most the whole input.
pub proof fn lemma_decode_str_len(s: Seq<u8>)
    ensures
        spec_decode_str(s) matches Some((b, n)) ==> 0 < n <= s.len(),
{
}

/// A decoded value takes at least one byte and at most the whole input.
pub proof fn lemma_decode_len(s: Seq<u8>)
    ensures
        spec_decode(s) matches Some((v, n)) ==> 0 < n <= s.len(),
    decreases s.len(), 0int,
{
    if s.len() > 0 {
        if s[0] == 108 {
            lemma_items_len(s.skip(1));
        } else if s[0] == 100 {
            lemma_entries_len(s.skip(1));
        }
    }
}

/// A list body takes at least its `e` and at most the whole input.
pub proof fn lemma_items_len(s: Seq<u8>)
    ensures
        spec_decode_items(s) matches Some((v, n)) ==> 0 < n <= s.len(),
    decreases s.len(), 1int,
{
    if s.len() > 0 && s[0] != 101 {
        lemma_decode_len(s);
        if let Some((v, n)) = spec_decode(s) {
            if 0 < n <= s.len() {
                lemma_items_len(s.skip(n as int));
            }
        }
    }
}

/// A dictionary body takes at least its `e` and at most the whole input.
pub proof fn lemma_entries_len(s: Seq<u8>)
    ensures
        spec_decode_entries(s) matches Some((v, n)) ==> 0 < n <= s.len(),
    decreases s.len(), 1int,
{
    if s.len() > 0 && s[0] != 101 && is_digit(s[0]) {
        if let Some((k, n)) = spec_decode_str(s) {
            if 0 < n <= s.len() {
                if let Some((v, m)) = spec_decode(s.skip(n as int)) {
                    if 0 < m <= s.len() - n {
                        lemma_entries_len(s.skip((n + m) as int));
                    }
                }
            }
        }
    }
}


/// The first occurrence of a byte in `s` stays the first in `s` followed by
/// anything.
proof fn lemma_first_index_prefix(s: Seq<u8>, t: Seq<u8>, b: u8)
    requires
        first_index(s, b) is Some,
    ensures
        first_index(s + t, b) == first_index(s, b),
{
    let c = choose|i: int| is_first(s, b, i);
    assert(is_first(s, b, c));
    assert(is_first(s + t, b, c)) by {
        assert forall|j: int| 0 <= j < c implies (s + t)[j] != b by {
            assert((s + t)[j] == s[j]);
        }
    }
    lemma_first_index(s, b, c);
    lemma_first_index(s + t, b, c);
}

/// A string read from `s` is read alike from `s` followed by anything.
proof fn lemma_prefix_str(s: Seq<u8>, t: Seq<u8>)
    requires
        spec_decode_str(s) is Some,
    ensures
        spec_decode_str(s + t) == spec_decode_str(s),
{
    lemma_first_index_prefix(s, t, 58u8);
    let c = first_index(s, 58u8)->0;
    assert((s + t).take(c) =~= s.take(c));
    let n = spec_parse_usize(s.take(c))->0;
    assert((s + t).subrange(c + 1, c + 1 + n) =~= s.subrange(c + 1, c + 1 + n));
}

/// An integer read from `s` is read alike from `s` followed by anything.
proof fn lemma_prefix_int(s: Seq<u8>, t: Seq<u8>)
    requires
        spec_decode_int(s) is Some,
    ensures
        spec_decode_int(s + t) == spec_decode_int(s),
{
    lemma_first_index_prefix(s, t, 101u8);
    let k = first_index(s, 101u8)->0;
    assert((s + t).subrange(1, k) =~= s.subrange(1, k));
}

/// What follows a bencoded value does not change how it is read: a value read
/// from the start of `s` is read the same, taking the same number of bytes,
/// from the start of `s` followed by any bytes `t`.
pub proof fn lemma_decode_prefix(s: Seq<u8>, t: Seq<u8>)
    requires
        spec_decode(s) is Some,
    ensures
        spec_decode(s + t) == spec_decode(s),
    decreases s.len(), 0int,
{
    assert((s + t)[0] == s[0]);
    if is_digit(s[0]) {
        lemma_prefix_str(s, t);
    } else if s[0] == 105 {
        lemma_prefix_int(s, t);
    } else if s[0] == 108 {
        assert((s + t).skip(1) =~= s.skip(1) + t);
        lemma_prefix_items(s.skip(1), t);
    } else {
        assert((s + t).skip(1) =~= s.skip(1) + t);
        lemma_prefix_entries(s.skip(1), t);
    }
}

/// The values of a list body are read alike whatever follows the body.
proof fn lemma_prefix_items(s: Seq<u8>, t: Seq<u8>)
    requires
        spec_decode_items(s) is Some,
    ensures
        spec_decode_items(s + t) == spec_decode_items(s),
    decreases s.len(), 1int,
{
    assert((s + t)[0] == s[0]);
    if s[0] != 101 {
        lemma_decode_prefix(s, t);
        let (_, n) = spec_decode(s)->0;
        assert((s + t).skip(n as int) =~= s.skip(n as int) + t);
        lemma_prefix_items(s.skip(n as int), t);
    }
}

/// The entries of a dictionary body are read alike whatever follows the
/// body.
proof fn lemma_prefix_entries(s: Seq<u8>, t: Seq<u8>)
    requires
        spec_decode_entries(s) is Some,
    ensures
        spec_decode_entries(s + t) == spec_decode_entries(s),
    decreases s.len(), 1int,
{
    assert((s + t)[0] == s[0]);
    if s[0] != 101 {
        lemma_prefix_str(s, t);
        let (_, n) = spec_decode_str(s)->0;
        assert((s + t).skip(n as int) =~= s.skip(n as int) + t);
        lemma_decode_prefix(s.skip(n as int), t);
        let (_, m) = spec_decode(s.skip(n as int))->0;
        assert((s + t).skip((n + m) as int) =~= s.skip((n + m) as int) + t);
        lemma_prefix_entries(s.skip((n + m) as int), t);
    }
}



impl BencodeValue {
    /// A copy of this value.
    pub fn copy(&self) -> (r: BencodeValue)
        ensures
            r.view_value() == self.view_value(),
        decreases self,
    {
        match self {
            BencodeValue::Int(i) => BencodeValue::Int(*i),
            BencodeValue::Bytes(b) => BencodeValue::Bytes(b.clone()),
            BencodeValue::List(l) => {
                let mut out: Vec<BencodeValue> = Vec::new();
                let mut i: usize = 0;
                while i < l.len()
                    invariant
                        *self == BencodeValue::List(*l),
                        i <= l@.len(),
                        out@.len() == i,
                        forall|j: int| 0 <= j < i ==> #[trigger] out@[j].view_value() == l@[j].view_value(),
                    decreases l@.len() - i,
                {
                    proof {
                        let lv = self->List_0;
                        assert(decreases_to!(*self => lv));
                        assert(decreases_to!(lv => lv@));
                        assert(decreases_to!(lv@ => lv@[i as int]));
                    }
                    out.push(l[i].copy());
                    i = i + 1;
                }
                let r = BencodeValue::List(out);
                proof {
                    lemma_view_list(r);
                    lemma_view_list(*self);
                    assert(view_values(out@) =~= view_values(l@));
                }
                r
            },
            BencodeValue::Dict(d) => {
                let mut out: Vec<(Vec<u8>, BencodeValue)> = Vec::new();
                let mut i: usize = 0;
                while i < d.len()
                    invariant
                        *self == BencodeValue::Dict(*d),
                        i <= d@.len(),
                        out@.len() == i,
                        forall|j: int|
                            0 <= j < i ==> #[trigger] out@[j].0@ == d@[j].0@ && out@[j].1.view_value()
                                == d@[j].1.view_value(),
                    decreases d@.len() - i,
                {
                    proof {
                        let dv = self->Dict_0;
                        assert(decreases_to!(*self => dv));
                        assert(decreases_to!(dv => dv@));
                        assert(decreases_to!(dv@ => dv@[i as int]));
                        assert(decreases_to!(dv@[i as int] => dv@[i as int].1));
                    }
                    let k = d[i].0.clone();
                    let v = d[i].1.copy();
                    out.push((k, v));
                    i = i + 1;
                }
                let r = BencodeValue::Dict(out);
                proof {
                    lemma_view_dict(r);
                    lemma_view_dict(*self);
                    assert(view_entries(out@) =~= view_entries(d@));
                }
                r
            },
        }
    }
}

/// Decodes bencoded bytes.
#[derive(Clone)]
pub struct BytesBencode;

impl BytesBencode {
    pub fn new() -> (r: Self) {
        BytesBencode
    }

    /// Decodes the string from the encoded (`<length>:<string>`) value, e.g.
    /// `5:hello` gives `hello`. Returns the string and the bytes after it.
    pub fn decode_string<'a>(self, encoded_value: &'a [u8]) -> (r: (BencodeValue, &'a [u8]))
        requires
            spec_decode_str(encoded_value@) is Some,
        ensures
            ({
                let (b, n) = spec_decode_str(encoded_value@)->0;
                &&& r.0.view_value() == SpecValue::Bytes(b)
                &&& r.1@ == encoded_value@.skip(n as int)
            }),
    {
        match decode_str_at(encoded_value) {
            Some((b, n)) => {
                proof {
                    lemma_decode_str_len(encoded_value@);
                }
                let rest = &encoded_value[n..encoded_value.len()];
                assert(rest@ =~= encoded_value@.skip(n as int));
                (BencodeValue::Bytes(b), rest)
            },
            None => (BencodeValue::Int(0), encoded_value),
        }
    }

    /// Decodes the integer from the encoded (`i<number>e`) value, e.g. `i52e`
    /// gives 52. All integers with a leading 0 are invalid (`i-0e`, `i05e`),
    /// but `i0e` is valid as 0 is an integer itself. Returns the integer and
    /// the bytes after the `e`.
    pub fn decode_integer<'a>(self, encoded_value: &'a [u8]) -> (r: (BencodeValue, &'a [u8]))
        requires
            spec_decode_int(encoded_value@) is Some,
        ensures
            ({
                let (v, n) = spec_decode_int(encoded_value@)->0;
                &&& r.0.view_value() == SpecValue::Int(v)
                &&& r.1@ == encoded_value@.skip(n as int)
            }),
    {
        match decode_int_at(encoded_value) {
            Some((v, n)) => {
                let rest = &encoded_value[n..encoded_value.len()];
                assert(rest@ =~= encoded_value@.skip(n as int));
                (BencodeValue::Int(v), rest)
            },
            None => (BencodeValue::Int(0), encoded_value),
        }
    }

    /// Decodes the value of any kind (string, integer, list, dictionary) at
    /// the start of the encoded bytes. Returns the value and the bytes after
    /// it.
    pub fn decoder<'a>(self, encoded_value: &'a [u8]) -> (r: (BencodeValue, &'a [u8]))
        requires
            spec_decode(encoded_value@) is Some,
        ensures
            ({
                let (v, n) = spec_decode(encoded_value@)->0;
                &&& r.0.view_value() == v
                &&& r.1@ == encoded_value@.skip(n as int)
            }),
    {
        match decode_prefix(encoded_value) {
            Some((v, n)) => {
                let rest = &encoded_value[n..encoded_value.len()];
                assert(rest@ =~= encoded_value@.skip(n as int));
                (v, rest)
            },
            None => (BencodeValue::Int(0), encoded_value),
        }
    }
}

} // verus!
