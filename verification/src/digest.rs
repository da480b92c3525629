//! Content identity: SHA-256, rendered as lowercase hex.
//!
//! The manifest identifies a book or an entry by its hash so it can be
//! published without carrying any of the content.

use vstd::prelude::*;
use sha2::{Digest, Sha256};
use crate::archive::Entry;

verus! {

/// The SHA-256 digest of some bytes.
pub uninterp spec fn sha256_of(data: Seq<u8>) -> Seq<u8>;

/// `Sha256::digest`, copied out. Claimed: the named digest of the bytes,
/// which is 32 bytes long, as every SHA-256 digest is.
#[verifier::external_body]
fn sha256(data: &[u8]) -> (d: Vec<u8>)
    ensures
        d@ == sha256_of(data@),
        d@.len() == 32,
{
    Sha256::digest(data).to_vec()
}

/// The lowercase hex digit for a value below 16.
pub open spec fn hex_digit(v: u8) -> char {
    if v == 0 { '0' }
    else if v == 1 { '1' }
    else if v == 2 { '2' }
    else if v == 3 { '3' }
    else if v == 4 { '4' }
    else if v == 5 { '5' }
    else if v == 6 { '6' }
    else if v == 7 { '7' }
    else if v == 8 { '8' }
    else if v == 9 { '9' }
    else if v == 10 { 'a' }
    else if v == 11 { 'b' }
    else if v == 12 { 'c' }
    else if v == 13 { 'd' }
    else if v == 14 { 'e' }
    else { 'f' }
}

/// Lowercase hex, two digits per byte, high nibble first.
pub open spec fn hex(d: Seq<u8>) -> Seq<char>
    decreases d.len(),
{
    if d.len() == 0 {
        Seq::empty()
    } else {
        hex(d.drop_last()) + seq![hex_digit(d.last() / 16), hex_digit(d.last() % 16)]
    }
}

fn hex_digit_str(v: u8) -> (s: &'static str)
    requires
        v < 16,
    ensures
        s@ == seq![hex_digit(v)],
{
    proof {
        reveal_strlit("0");
        reveal_strlit("1");
        reveal_strlit("2");
        reveal_strlit("3");
        reveal_strlit("4");
        reveal_strlit("5");
        reveal_strlit("6");
        reveal_strlit("7");
        reveal_strlit("8");
        reveal_strlit("9");
        reveal_strlit("a");
        reveal_strlit("b");
        reveal_strlit("c");
        reveal_strlit("d");
        reveal_strlit("e");
        reveal_strlit("f");
    }
    let s = if v == 0 { "0" }
    else if v == 1 { "1" }
    else if v == 2 { "2" }
    else if v == 3 { "3" }
    else if v == 4 { "4" }
    else if v == 5 { "5" }
    else if v == 6 { "6" }
    else if v == 7 { "7" }
    else if v == 8 { "8" }
    else if v == 9 { "9" }
    else if v == 10 { "a" }
    else if v == 11 { "b" }
    else if v == 12 { "c" }
    else if v == 13 { "d" }
    else if v == 14 { "e" }
    else { "f" };
    assert(s@ =~= seq![hex_digit(v)]);
    s
}

/// Lowercase hex of some bytes.
pub fn to_hex(d: &[u8]) -> (s: String)
    ensures
        s@ == hex(d@),
{
    let mut s = String::new();
    let mut i: usize = 0;
    assert(d@.take(0) =~= Seq::<u8>::empty());
    while i < d.len()
        invariant
            i <= d@.len(),
            s@ == hex(d@.take(i as int)),
        decreases d@.len() - i,
    {
        assert(d@.take(i + 1).drop_last() =~= d@.take(i as int));
        assert(d@.take(i + 1).last() == d@[i as int]);
        let b = d[i];
        s.append(hex_digit_str(b / 16));
        s.append(hex_digit_str(b % 16));
        i = i + 1;
    }
    assert(d@.take(d@.len() as int) =~= d@);
    s
}

/// SHA-256 of some bytes, as 64 lowercase hex digits.
pub fn sha256_hex(data: &[u8]) -> (s: String)
    ensures
        s@ == hex(sha256_of(data@)),
{
    let d = sha256(data);
    to_hex(d.as_slice())
}

impl Entry {
    /// SHA-256 of the uncompressed bytes, so an entry can be identified
    /// without being redistributed.
    pub fn content_hash(&self) -> (s: String)
        ensures
            s@ == hex(sha256_of(self.data@)),
    {
        sha256_hex(self.data.as_slice())
    }
}

/// A hex rendering has two digits per byte.
pub proof fn law_hex_is_two_digits_per_byte(d: Seq<u8>)
    ensures
        hex(d).len() == 2 * d.len(),
    decreases d.len(),
{
    if d.len() > 0 {
        law_hex_is_two_digits_per_byte(d.drop_last());
    }
}

} // verus!
