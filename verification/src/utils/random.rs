//! Peer ids made at random.
use vstd::prelude::*;
use rand::Rng;

use crate::utils::text::string_from_chars;

verus! {

/// A random byte, from `rand::random::<u8>`. Trusted for nothing beyond its
/// type: any byte may come back.
#[verifier::external_body]
fn random_byte() -> (r: u8) {
    rand::random::<u8>()
}

/// An ASCII letter.
pub open spec fn is_ascii_letter(c: char) -> bool {
    ('A' <= c <= 'Z') || ('a' <= c <= 'z')
}

/// A random ASCII letter, from sampling `rand::distr::Alphabetic` with the
/// thread's generator. Trusted, from the crate's source: the distribution
/// only yields `A`-`Z` and `a`-`z`.
#[verifier::external_body]
fn random_letter() -> (r: u8)
    ensures
        is_ascii_letter(r as char),
{
    rand::rng().sample(rand::distr::Alphabetic)
}

/// The prefix of the peer ids this client uses for torrent files.
pub open spec fn peer_prefix() -> Seq<char> {
    seq!['-', 'q', 'B', '4', '2', '5', '0', '-']
}

/// The prefix of the peer ids this client uses for magnet links.
pub open spec fn magnet_peer_prefix() -> Seq<char> {
    seq!['-', 'R', 'U', '1', '0', '0', '0', '-']
}

/// The peer id for torrent files made of 12 random bytes: `-qB4250-`, then
/// the digit `b % 10` for each byte `b`.
pub open spec fn peer_id_text(draws: Seq<u8>) -> Seq<char> {
    peer_prefix() + Seq::new(12, |i: int| ((draws[i] % 10) + 48) as char)
}

/// The peer id for magnet links made of 12 letters: `-RU1000-`, then the
/// letters.
pub open spec fn magnet_peer_id_text(letters: Seq<u8>) -> Seq<char> {
    magnet_peer_prefix() + Seq::new(12, |i: int| letters[i] as char)
}

/// The peer id for torrent files made of 12 random bytes.
pub fn peer_id_from_draws(draws: &Vec<u8>) -> (r: String)
    requires
        draws@.len() == 12,
    ensures
        r@ == peer_id_text(draws@),
{
    let mut chars: Vec<char> = vec!['-', 'q', 'B', '4', '2', '5', '0', '-'];
    assert(chars@ =~= peer_prefix());
    let mut i: usize = 0;
    while i < 12
        invariant
            i <= 12,
            draws@.len() == 12,
            chars@ == peer_prefix() + Seq::new(i as nat, |j: int| ((draws@[j] % 10) + 48) as char),
        decreases 12 - i,
    {
        let d = draws[i] % 10 + 48;
        chars.push(d as char);
        i = i + 1;
        assert(chars@ =~= peer_prefix() + Seq::new(i as nat, |j: int| ((draws@[j] % 10) + 48) as char));
    }
    string_from_chars(&chars)
}

/// The peer id for magnet links made of 12 ASCII letters.
pub fn magnet_peer_id_from_letters(letters: &Vec<u8>) -> (r: String)
    requires
        letters@.len() == 12,
        forall|i: int| 0 <= i < 12 ==> is_ascii_letter(#[trigger] letters@[i] as char),
    ensures
        r@ == magnet_peer_id_text(letters@),
{
    let mut chars: Vec<char> = vec!['-', 'R', 'U', '1', '0', '0', '0', '-'];
    assert(chars@ =~= magnet_peer_prefix());
    let mut i: usize = 0;
    while i < 12
        invariant
            i <= 12,
            letters@.len() == 12,
            chars@ == magnet_peer_prefix() + Seq::new(i as nat, |j: int| letters@[j] as char),
        decreases 12 - i,
    {
        chars.push(letters[i] as char);
        i = i + 1;
        assert(chars@ =~= magnet_peer_prefix() + Seq::new(i as nat, |j: int| letters@[j] as char));
    }
    string_from_chars(&chars)
}

/// A peer id for torrent files: `-qB4250-` followed by 12 random decimal
/// digits, 20 characters in all, made of 12 random bytes.
pub fn generate_peerid() -> (r: String)
    ensures
        exists|draws: Seq<u8>| draws.len() == 12 && r@ == peer_id_text(draws),
        r@.len() == 20,
        r@.take(8) == peer_prefix(),
        forall|i: int| 8 <= i < 20 ==> '0' <= #[trigger] r@[i] <= '9',
{
    let mut draws: Vec<u8> = Vec::new();
    let mut i: usize = 0;
    while i < 12
        invariant
            i <= 12,
            draws@.len() == i,
        decreases 12 - i,
    {
        draws.push(random_byte());
        i = i + 1;
    }
    let r = peer_id_from_draws(&draws);
    proof {
        assert(r@.take(8) =~= peer_prefix());
        assert forall|i: int| 8 <= i < 20 implies '0' <= #[trigger] r@[i] <= '9' by {
            assert(r@[i] == ((draws@[i - 8] % 10) + 48) as char);
        }
    }
    r
}

/// A peer id for magnet links: `-RU1000-` followed by 12 random ASCII
/// letters, 20 characters in all.
pub fn generate_magnet_peerid() -> (r: String)
    ensures
        exists|letters: Seq<u8>|
            letters.len() == 12 && (forall|i: int| 0 <= i < 12 ==> is_ascii_letter(#[trigger] letters[i] as char))
                && r@ == magnet_peer_id_text(letters),
        r@.len() == 20,
        r@.take(8) == magnet_peer_prefix(),
        forall|i: int| 8 <= i < 20 ==> is_ascii_letter(#[trigger] r@[i]),
{
    let mut letters: Vec<u8> = Vec::new();
    let mut i: usize = 0;
    while i < 12
        invariant
            i <= 12,
            letters@.len() == i,
            forall|j: int| 0 <= j < i ==> is_ascii_letter(#[trigger] letters@[j] as char),
        decreases 12 - i,
    {
        letters.push(random_letter());
        i = i + 1;
    }
    let r = magnet_peer_id_from_letters(&letters);
    proof {
        assert(r@.take(8) =~= magnet_peer_prefix());
        assert forall|i: int| 8 <= i < 20 implies is_ascii_letter(#[trigger] r@[i]) by {
            assert(r@[i] == letters@[i - 8] as char);
        }
    }
    r
}

} // verus!
