//! Magnet links: `magnet:?xt=urn:btih:<info-hash>&dn=<name>&tr=<tracker-url>`.
use vstd::prelude::*;

use crate::utils::text::{chars_of, string_from_chars};

verus! {

/// The character sequence of `"magnet:?"`.
pub open spec fn magnet_prefix() -> Seq<char> {
    seq!['m', 'a', 'g', 'n', 'e', 't', ':', '?']
}

/// The character sequence of `"urn:btih:"`.
pub open spec fn btih_prefix() -> Seq<char> {
    seq!['u', 'r', 'n', ':', 'b', 't', 'i', 'h', ':']
}

/// What percent-decoding turns bytes into: `%` and two hexadecimal digits
/// become the byte they denote; every other byte stays as it is.
pub open spec fn percent_decode(b: Seq<u8>) -> Seq<u8>
    decreases b.len(),
{
    if b.len() == 0 {
        Seq::empty()
    } else if b.len() >= 3 && b[0] == 37 && hex_value(b[1]) is Some && hex_value(b[2]) is Some {
        seq![(hex_value(b[1])->0 * 16 + hex_value(b[2])->0) as u8] + percent_decode(b.skip(3))
    } else {
        seq![b[0]] + percent_decode(b.skip(1))
    }
}

/// The value of a hexadecimal digit (either case).
pub open spec fn hex_value(c: u8) -> Option<int> {
    if 48 <= c <= 57 {
        Some(c - 48)
    } else if 65 <= c <= 70 {
        Some(c - 55)
    } else if 97 <= c <= 102 {
        Some(c - 87)
    } else {
        None
    }
}

/// A percent-encoded text decoded as UTF-8: `None` when the decoded bytes are
/// not UTF-8. A `+` stays a `+`.
pub open spec fn spec_url_decode(s: Seq<char>) -> Option<Seq<char>> {
    let d = percent_decode(vstd::utf8::encode_utf8(s));
    if vstd::utf8::valid_utf8(d) {
        Some(vstd::utf8::decode_utf8(d))
    } else {
        None
    }
}

/// `urlencoding::decode`. Trusted: the result is the percent-decoding of `s`
/// read as UTF-8, and an error (here `None`) exactly when that is not UTF-8.
#[verifier::external_body]
fn url_decode(s: &str) -> (r: Option<String>)
    ensures
        match r {
            Some(t) => spec_url_decode(s@) == Some(t@),
            None => spec_url_decode(s@) is None,
        },
{
    match urlencoding::decode(s) {
        Ok(text) => Some(text.into_owned()),
        Err(_) => None,
    }
}

#[derive(Default, Debug, Clone)]
pub struct MagnetLink {
    /// `urn:btih:` followed by the 40-character hex-encoded info hash, the
    /// prefix taken off.
    pub xt: String,
    /// The name of the file to be downloaded (example: magnet1.gif).
    pub dn: Option<String>,
    /// The tracker URL (example: http://bittorrent-tracker-torrex.io/announce).
    pub tr: Option<String>,
}

/// A magnet link in mathematical form.
pub struct MagnetView {
    pub xt: Seq<char>,
    pub dn: Option<Seq<char>>,
    pub tr: Option<Seq<char>>,
}

pub open spec fn opt_view(o: Option<String>) -> Option<Seq<char>> {
    match o {
        Some(s) => Some(s@),
        None => None,
    }
}

/// Every byte is a hexadecimal digit.
pub open spec fn all_hex(b: Seq<u8>) -> bool {
    forall|i: int| 0 <= i < b.len() ==> #[trigger] hex_value(b[i]) is Some
}

/// Hexadecimal text decoded: each pair of digits (either case) is a byte;
/// `None` for an odd length or a byte that is not a digit.
pub open spec fn spec_hex_decode(b: Seq<u8>) -> Option<Seq<u8>> {
    if b.len() % 2 == 0 && all_hex(b) {
        Some(
            Seq::new(
                b.len() / 2,
                |i: int| (hex_value(b[2 * i])->0 * 16 + hex_value(b[2 * i + 1])->0) as u8,
            ),
        )
    } else {
        None
    }
}

/// `hex::decode` on the bytes of `s`. Trusted, from the crate's source: an
/// odd length or a byte that is not a hexadecimal digit (either case) is an
/// error, here `None`; otherwise each pair of digits gives the byte
/// `16 * high + low`.
#[verifier::external_body]
fn hex_decode(s: &str) -> (r: Option<Vec<u8>>)
    ensures
        match r {
            Some(v) => spec_hex_decode(vstd::utf8::encode_utf8(s@)) == Some(v@),
            None => spec_hex_decode(vstd::utf8::encode_utf8(s@)) is None,
        },
{
    hex::decode(s).ok()
}

impl MagnetLink {
    pub open spec fn view(&self) -> MagnetView {
        MagnetView { xt: self.xt@, dn: opt_view(self.dn), tr: opt_view(self.tr) }
    }

    /// The info hash as bytes, decoded from the hexadecimal text of `xt`;
    /// `None` when that text is not hexadecimal.
    pub fn info_hash(&self) -> (r: Option<Vec<u8>>)
        ensures
            match r {
                Some(v) => spec_hex_decode(vstd::utf8::encode_utf8(self.xt@)) == Some(v@),
                None => spec_hex_decode(vstd::utf8::encode_utf8(self.xt@)) is None,
            },
    {
        hex_decode(self.xt.as_str())
    }
}

/// Removes `p` from the start of `s` as many times as it occurs there.
pub open spec fn strip_all(s: Seq<char>, p: Seq<char>) -> Seq<char>
    decreases s.len(),
{
    if p.len() > 0 && s.len() >= p.len() && s.take(p.len() as int) == p {
        strip_all(s.skip(p.len() as int), p)
    } else {
        s
    }
}

/// The position of the first `c` in `s`, if any.
pub open spec fn first_char(s: Seq<char>, c: char) -> Option<int> {
    if exists|i: int| 0 <= i < s.len() && s[i] == c && forall|j: int| 0 <= j < i ==> s[j] != c {
        Some(
            choose|i: int| 0 <= i < s.len() && s[i] == c && forall|j: int| 0 <= j < i ==> s[j] != c,
        )
    } else {
        None
    }
}

proof fn lemma_first_char(s: Seq<char>, c: char, i: int)
    requires
        0 <= i < s.len(),
        s[i] == c,
        forall|j: int| 0 <= j < i ==> s[j] != c,
    ensures
        first_char(s, c) == Some(i),
{
    let k = choose|k: int| 0 <= k < s.len() && s[k] == c && forall|j: int| 0 <= j < k ==> s[j] != c;
    if k < i {
        assert(s[k] != c);
    }
    if i < k {
        assert(s[i] != c);
    }
}

proof fn lemma_first_char_none(s: Seq<char>, c: char)
    requires
        forall|j: int| 0 <= j < s.len() ==> s[j] != c,
    ensures
        first_char(s, c) is None,
{
}

/// The pieces of `s` between the occurrences of `sep` (as `str::split`; at
/// least one, possibly empty).
pub open spec fn split_parts(s: Seq<char>, sep: char) -> Seq<Seq<char>>
    decreases s.len(),
{
    match first_char(s, sep) {
        Some(i) => seq![s.take(i)] + split_parts(s.skip(i + 1), sep),
        None => seq![s],
    }
}

/// What a `key=value` part of the query sets: `xt` (without its `urn:btih:`
/// prefix), `dn` or `tr`, with the value percent-decoded (empty when that
/// fails). Other keys, and parts without `=`, change nothing.
pub open spec fn apply_part(m: MagnetView, part: Seq<char>) -> MagnetView {
    match first_char(part, '=') {
        Some(i) => {
            let key = part.take(i);
            let val = match spec_url_decode(part.skip(i + 1)) {
                Some(d) => d,
                None => Seq::empty(),
            };
            if key == seq!['x', 't'] {
                MagnetView { xt: strip_all(val, btih_prefix()), ..m }
            } else if key == seq!['d', 'n'] {
                MagnetView { dn: Some(val), ..m }
            } else if key == seq!['t', 'r'] {
                MagnetView { tr: Some(val), ..m }
            } else {
                m
            }
        },
        None => m,
    }
}

/// Applies the parts in order.
pub open spec fn apply_parts(m: MagnetView, parts: Seq<Seq<char>>) -> MagnetView
    decreases parts.len(),
{
    if parts.len() == 0 {
        m
    } else {
        apply_parts(apply_part(m, parts[0]), parts.skip(1))
    }
}

/// The magnet link after parsing `link` over `m`: the `magnet:?` prefixes
/// are taken off and each `&`-separated part is applied.
pub open spec fn spec_parse(m: MagnetView, link: Seq<char>) -> MagnetView {
    apply_parts(m, split_parts(strip_all(link, magnet_prefix()), '&'))
}

/// To parse the magnet link.
/// Example of link, v1: `magnet:?xt=urn:btih:<info-hash>&dn=<name>&tr=<tracker-url>&x.pe=<peer-address>`
#[derive(Debug, Default)]
pub struct Parser {
    pub magnet_link: MagnetLink,
    pub link: String,
}

/// Whether `s[at..]` starts with `p`.
fn starts_with_at(s: &Vec<char>, at: usize, p: &Vec<char>) -> (r: bool)
    requires
        at <= s@.len(),
    ensures
        r == (s@.len() - at >= p@.len() && s@.subrange(at as int, at + p@.len()) == p@),
{
    if s.len() - at < p.len() {
        return false;
    }
    let mut i: usize = 0;
    while i < p.len()
        invariant
            at <= s@.len(),
            s@.len() - at >= p@.len(),
            i <= p@.len(),
            forall|j: int| 0 <= j < i ==> s@[at + j] == p@[j],
        decreases p@.len() - i,
    {
        assert(at + i < s.len());
        if s[at + i] != p[i] {
            assert(s@.subrange(at as int, at + p@.len())[i as int] != p@[i as int]);
            return false;
        }
        i = i + 1;
    }
    assert(s@.subrange(at as int, at + p@.len()) =~= p@);
    true
}

/// `s[from..to]` as a vector.
fn sub_chars(s: &Vec<char>, from: usize, to: usize) -> (r: Vec<char>)
    requires
        from <= to <= s@.len(),
    ensures
        r@ == s@.subrange(from as int, to as int),
{
    let mut out: Vec<char> = Vec::new();
    let mut i = from;
    while i < to
        invariant
            from <= i <= to <= s@.len(),
            out@ == s@.subrange(from as int, i as int),
        decreases to - i,
    {
        out.push(s[i]);
        i = i + 1;
        assert(out@ =~= s@.subrange(from as int, i as int));
    }
    out
}

/// The position of the first `c` in `s[from..]`, counted from the start of `s`.
fn find_char(s: &Vec<char>, from: usize, c: char) -> (r: Option<usize>)
    requires
        from <= s@.len(),
    ensures
        match r {
            Some(i) => from <= i < s@.len() && first_char(s@.skip(from as int), c) == Some(
                i - from,
            ),
            None => first_char(s@.skip(from as int), c) is None,
        },
{
    let ghost t = s@.skip(from as int);
    let mut i = from;
    while i < s.len()
        invariant
            from <= i <= s@.len(),
            t == s@.skip(from as int),
            forall|j: int| 0 <= j < i - from ==> t[j] != c,
        decreases s@.len() - i,
    {
        if s[i] == c {
            proof {
                lemma_first_char(t, c, i - from);
            }
            return Some(i);
        }
        i = i + 1;
    }
    proof {
        lemma_first_char_none(t, c);
    }
    None
}

/// Removes `p` from the start of `s` as many times as it occurs there.
fn strip_prefixes(s: &Vec<char>, p: &Vec<char>) -> (r: Vec<char>)
    requires
        p@.len() > 0,
    ensures
        r@ == strip_all(s@, p@),
{
    let mut at: usize = 0;
    assert(s@.skip(0) =~= s@);
    while starts_with_at(s, at, p)
        invariant
            at <= s@.len(),
            p@.len() > 0,
            strip_all(s@, p@) == strip_all(s@.skip(at as int), p@),
        decreases s@.len() - at,
    {
        proof {
            let t = s@.skip(at as int);
            assert(t.take(p@.len() as int) =~= s@.subrange(at as int, at + p@.len()));
            assert(t.skip(p@.len() as int) =~= s@.skip(at + p@.len()));
        }
        assert(at + p.len() <= s.len());
        at = at + p.len();
    }
    proof {
        let t = s@.skip(at as int);
        if t.len() >= p@.len() {
            assert(t.take(p@.len() as int) =~= s@.subrange(at as int, at + p@.len()));
        }
    }
    sub_chars(s, at, s.len())
}

/// Decodes a percent-encoded value; empty when that fails.
fn decode_value(val: &Vec<char>) -> (r: Vec<char>)
    ensures
        r@ == match spec_url_decode(val@) {
            Some(d) => d,
            None => Seq::empty(),
        },
{
    let text = string_from_chars(val);
    match url_decode(text.as_str()) {
        Some(d) => chars_of(d.as_str()),
        None => Vec::new(),
    }
}

impl Parser {
    pub fn new(link: String) -> (r: Self)
        ensures
            r.link == link,
            r.magnet_link@ == (MagnetView { xt: Seq::empty(), dn: None, tr: None }),
    {
        Parser {
            magnet_link: MagnetLink { xt: String::new(), dn: None, tr: None },
            link,
        }
    }

    /// Whether the link starts with `magnet:?`.
    pub fn verify_magnet(&mut self) -> (r: bool)
        ensures
            *final(self) == *old(self),
            r == (old(self).link@.len() >= 8 && old(self).link@.take(8) == magnet_prefix()),
    {
        let chars = chars_of(self.link.as_str());
        let prefix = vec!['m', 'a', 'g', 'n', 'e', 't', ':', '?'];
        assert(prefix@ =~= magnet_prefix());
        let r = starts_with_at(&chars, 0, &prefix);
        assert(r ==> chars@.take(8) =~= chars@.subrange(0, 8));
        assert(chars@.len() >= 8 && chars@.take(8) == magnet_prefix() ==> chars@.subrange(0, 8)
            =~= chars@.take(8));
        r
    }

    /// Applies one `key=value` part of the query.
    fn apply(&mut self, part: &Vec<char>)
        ensures
            final(self).link == old(self).link,
            final(self).magnet_link@ == apply_part(old(self).magnet_link@, part@),
    {
        match find_char(part, 0, '=') {
            Some(i) => {
                assert(part@.skip(0) =~= part@);
                assert(i < part.len());
                let key = sub_chars(part, 0, i);
                let raw = sub_chars(part, i + 1, part.len());
                assert(key@ =~= part@.take(i as int));
                assert(raw@ =~= part@.skip(i + 1));
                let val = decode_value(&raw);
                let xt_key = vec!['x', 't'];
                let dn_key = vec!['d', 'n'];
                let tr_key = vec!['t', 'r'];
                assert(xt_key@ =~= seq!['x', 't']);
                assert(dn_key@ =~= seq!['d', 'n']);
                assert(tr_key@ =~= seq!['t', 'r']);
                if key.len() == 2 && starts_with_at(&key, 0, &xt_key) {
                    assert(key@ =~= key@.subrange(0, 2));
                    let prefix = vec!['u', 'r', 'n', ':', 'b', 't', 'i', 'h', ':'];
                    assert(prefix@ =~= btih_prefix());
                    let stripped = strip_prefixes(&val, &prefix);
                    self.magnet_link.xt = string_from_chars(&stripped);
                } else if key.len() == 2 && starts_with_at(&key, 0, &dn_key) {
                    assert(key@ =~= key@.subrange(0, 2));
                    self.magnet_link.dn = Some(string_from_chars(&val));
                } else if key.len() == 2 && starts_with_at(&key, 0, &tr_key) {
                    assert(key@ =~= key@.subrange(0, 2));
                    self.magnet_link.tr = Some(string_from_chars(&val));
                } else {
                    assert(key.len() == 2 ==> key@ =~= key@.subrange(0, 2));
                }
            },
            None => {
                assert(part@.skip(0) =~= part@);
            },
        }
    }

    /// Parses the link into its magnet link fields: takes off the
    /// `magnet:?` prefix, splits the query at `&` and each part at its first
    /// `=`, and sets `xt`, `dn` and `tr` from the percent-decoded values.
    pub fn parse(&mut self) -> (r: &mut Self)
        ensures
            r.link == old(self).link,
            r.magnet_link@ == spec_parse(old(self).magnet_link@, old(self).link@),
            *final(self) == *final(r),
    {
        let chars = chars_of(self.link.as_str());
        let prefix = vec!['m', 'a', 'g', 'n', 'e', 't', ':', '?'];
        assert(prefix@ =~= magnet_prefix());
        let query = strip_prefixes(&chars, &prefix);
        let ghost target = spec_parse(self.magnet_link@, self.link@);
        let mut pos: usize = 0;
        assert(query@.skip(0) =~= query@);
        assert(chars@ == self.link@);
        loop
            invariant
                pos <= query@.len(),
                self.link == old(self).link,
                target == spec_parse(old(self).magnet_link@, old(self).link@),
                target == apply_parts(self.magnet_link@, split_parts(query@.skip(pos as int), '&')),
            decreases query@.len() - pos,
        {
            let ghost rest = query@.skip(pos as int);
            match find_char(&query, pos, '&') {
                Some(next) => {
                    let part = sub_chars(&query, pos, next);
                    proof {
                        assert(part@ =~= rest.take(next - pos));
                        assert(rest.skip(next - pos + 1) =~= query@.skip(next + 1));
                        let parts = split_parts(rest, '&');
                        assert(parts[0] == part@);
                        assert(parts.skip(1) =~= split_parts(query@.skip(next + 1), '&'));
                    }
                    self.apply(&part);
                    assert(next < query.len());
                    pos = next + 1;
                },
                None => {
                    let part = sub_chars(&query, pos, query.len());
                    proof {
                        assert(part@ =~= rest);
                        let parts = split_parts(rest, '&');
                        assert(parts =~= seq![rest]);
                        assert(parts.skip(1) =~= Seq::<Seq<char>>::empty());
                    }
                    let ghost before = self.magnet_link@;
                    self.apply(&part);
                    proof {
                        let parts = split_parts(rest, '&');
                        assert(apply_parts(before, parts) == apply_parts(
                            apply_part(before, parts[0]),
                            parts.skip(1),
                        ));
                        assert(apply_parts(self.magnet_link@, Seq::<Seq<char>>::empty())
                            == self.magnet_link@);
                        assert(self.magnet_link@ == target);
                    }
                    return self;
                },
            }
        }
    }
}

} // verus!
