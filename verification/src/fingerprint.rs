//! The fingerprint that tells duplicates: SHA-1 of the first and last
//! 256 KiB of the file and of its size written in decimal, in lower-case
//! hexadecimal. Enough to recognise a file without reading gigabytes of
//! video.
use vstd::prelude::*;
use sha1::Digest;
use crate::text::{dec, dec_chars, string_of};

verus! {

/// How much is read at each end of the file.
pub const CHUNK: u64 = 262144;

/// What the `sha1` crate computes for the bytes given.
pub uninterp spec fn sha1(data: Seq<u8>) -> Seq<u8>;

/// `Sha1::digest`: the SHA-1 digest of the bytes, 20 bytes long (the
/// output type of `Sha1` holds 20 bytes). The digest itself is named, not
/// stated.
#[verifier::external_body]
fn sha1_of(data: &[u8]) -> (r: Vec<u8>)
    ensures
        r@ == sha1(data@),
        r.len() == 20,
{
    sha1::Sha1::digest(data).to_vec()
}

/// How many bytes are read at the start of a file of `size` bytes.
pub open spec fn head_len(size: u64) -> nat {
    if size < CHUNK { size as nat } else { CHUNK as nat }
}

/// Where the last bytes are read, when the file is longer than a chunk.
pub open spec fn tail_at(size: u64) -> Option<u64> {
    if size > CHUNK { Some((size - CHUNK) as u64) } else { None }
}

/// What to read of a file of `size` bytes: how many bytes from its start,
/// and from which offset a chunk at its end, if any.
pub fn reads_for(size: u64) -> (r: (usize, Option<u64>))
    ensures
        r.0 == head_len(size),
        r.1 == tail_at(size),
{
    let n: usize = if size < CHUNK { size as usize } else { CHUNK as usize };
    let tail = if size > CHUNK { Some(size - CHUNK) } else { None };
    (n, tail)
}

pub open spec fn hex_digit(v: u8) -> char
    recommends
        v < 16,
{
    if v < 10 {
        (48 + v) as char
    } else {
        (87 + v) as char
    }
}

/// Lower-case hexadecimal, two digits per byte (`{:02x}`).
pub open spec fn hex(b: Seq<u8>) -> Seq<char>
    decreases b.len(),
{
    if b.len() == 0 {
        Seq::empty()
    } else {
        hex(b.drop_last()) + seq![hex_digit(b.last() / 16), hex_digit(b.last() % 16)]
    }
}

/// A lower-case hexadecimal digit.
pub open spec fn lower_hex(c: char) -> bool {
    ('0' <= c && c <= '9') || ('a' <= c && c <= 'f')
}

proof fn lemma_hex(b: Seq<u8>)
    ensures
        hex(b).len() == 2 * b.len(),
        forall|i: int| 0 <= i < hex(b).len() ==> lower_hex(#[trigger] hex(b)[i]),
    decreases b.len(),
{
    if b.len() > 0 {
        lemma_hex(b.drop_last());
        let h = hex(b.drop_last());
        let x = b.last();
        assert(x / 16 < 16 && x % 16 < 16);
        assert forall|i: int| 0 <= i < hex(b).len() implies lower_hex(#[trigger] hex(b)[i]) by {
            if i < h.len() {
                assert(hex(b)[i] == h[i]);
            }
        }
    }
}

fn hex_char(v: u8) -> (c: char)
    requires
        v < 16,
    ensures
        c == hex_digit(v),
{
    if v < 10 {
        (48 + v) as char
    } else {
        (87 + v) as char
    }
}

fn hex_of(b: &[u8]) -> (r: String)
    ensures
        r@ == hex(b@),
{
    let mut v: Vec<char> = Vec::new();
    let mut i: usize = 0;
    while i < b.len()
        invariant
            i <= b.len(),
            v@ == hex(b@.take(i as int)),
        decreases b.len() - i,
    {
        assert(b@.take(i + 1).drop_last() =~= b@.take(i as int));
        assert(b@.take(i + 1).last() == b@[i as int]);
        v.push(hex_char(b[i] / 16));
        v.push(hex_char(b[i] % 16));
        i = i + 1;
        assert(v@ =~= hex(b@.take(i as int)));
    }
    assert(b@.take(i as int) =~= b@);
    string_of(&v)
}

/// The bytes of a text made of ASCII characters.
pub open spec fn ascii_bytes(s: Seq<char>) -> Seq<u8> {
    s.map_values(|c: char| c as u8)
}

/// What is hashed: the first bytes, the last chunk, the size in decimal.
pub open spec fn hashed(head: Seq<u8>, tail: Option<Seq<u8>>, size: u64) -> Seq<u8> {
    head + match tail {
        Some(t) => t,
        None => Seq::empty(),
    } + ascii_bytes(dec(size as nat))
}

/// The fingerprint of a file of `size` bytes, from its first bytes and,
/// when it is longer than a chunk, its last chunk.
pub fn fingerprint(head: &[u8], tail: Option<&[u8]>, size: u64) -> (r: String)
    ensures
        r@ == hex(sha1(hashed(head@, match tail {
            Some(t) => Some(t@),
            None => None,
        }, size))),
        r@.len() == 40,
        forall|i: int| 0 <= i < r@.len() ==> lower_hex(#[trigger] r@[i]),
{
    let mut data: Vec<u8> = Vec::new();
    append_bytes(&mut data, head);
    match tail {
        Some(t) => append_bytes(&mut data, t),
        None => {},
    }
    let digits = dec_chars(size);
    let mut i: usize = 0;
    let ghost start = data@;
    while i < digits.len()
        invariant
            i <= digits.len(),
            data@ == start + ascii_bytes(digits@.take(i as int)),
        decreases digits.len() - i,
    {
        data.push(digits[i] as u8);
        i = i + 1;
        assert(data@ =~= start + ascii_bytes(digits@.take(i as int)));
    }
    assert(digits@.take(i as int) =~= digits@);
    assert(data@ =~= hashed(head@, match tail {
        Some(t) => Some(t@),
        None => None,
    }, size));
    let digest = sha1_of(data.as_slice());
    proof {
        lemma_hex(digest@);
    }
    hex_of(digest.as_slice())
}

fn append_bytes(v: &mut Vec<u8>, s: &[u8])
    ensures
        final(v)@ == old(v)@ + s@,
{
    let mut i: usize = 0;
    while i < s.len()
        invariant
            i <= s.len(),
            v@ == old(v)@ + s@.take(i as int),
        decreases s.len() - i,
    {
        v.push(s[i]);
        i = i + 1;
        assert(v@ =~= old(v)@ + s@.take(i as int));
    }
    assert(s@.take(i as int) =~= s@);
}

} // verus!
