//! Content hashes (SHA-256 from the `sha2` crate) in lower-case hex.
use vstd::prelude::*;
use sha2::Digest;
use crate::text::string_of;

verus! {

/// The SHA-256 digest of `data`.
pub uninterp spec fn sha256(data: Seq<u8>) -> Seq<u8>;

/// Calls `sha2::Sha256::digest`. The digest is named by `sha256`, a function
/// of the data alone, and is 32 bytes long (the output size of SHA-256).
#[verifier::external_body]
fn sha256_digest(data: &[u8]) -> (d: Vec<u8>)
    ensures
        d@ == sha256(data@),
        d@.len() == 32,
{
    sha2::Sha256::digest(data).to_vec()
}

/// The lower-case hex digit for `v` (`0..16`).
pub open spec fn hex_digit(v: int) -> char {
    if v < 10 {
        ((48 + v) as u8) as char
    } else {
        ((87 + v) as u8) as char
    }
}

/// Two lower-case hex digits per byte, most significant first (`{:x}`).
pub open spec fn hex_lower(bytes: Seq<u8>) -> Seq<char>
    decreases bytes.len(),
{
    if bytes.len() == 0 {
        Seq::empty()
    } else {
        hex_lower(bytes.drop_last()) + seq![
            hex_digit(bytes.last() as int / 16),
            hex_digit(bytes.last() as int % 16),
        ]
    }
}

fn hex_char(v: u8) -> (c: char)
    requires
        v < 16,
    ensures
        c == hex_digit(v as int),
{
    if v < 10 {
        (48u8 + v) as char
    } else {
        (87u8 + v) as char
    }
}

/// The SHA-256 of `data` in lower-case hex: 64 characters.
pub fn content_hash(data: &[u8]) -> (h: String)
    ensures
        h@ == hex_lower(sha256(data@)),
{
    let d = sha256_digest(data);
    let mut v: Vec<char> = Vec::new();
    let mut i: usize = 0;
    while i < d.len()
        invariant
            i <= d.len(),
            v@ == hex_lower(d@.take(i as int)),
        decreases d.len() - i,
    {
        let b = d[i];
        v.push(hex_char(b / 16));
        v.push(hex_char(b % 16));
        assert(d@.take(i + 1).drop_last() =~= d@.take(i as int));
        i = i + 1;
    }
    assert(d@.take(d.len() as int) =~= d@);
    string_of(&v)
}

} // verus!
