//! Digests, and the ids that are made from them.
use sha2::Digest;
use vstd::prelude::*;
use vstd::string::*;
use vstd::utf8::encode_utf8;

use crate::text::joined;

verus! {

/// The SHA-256 digest of some bytes.
pub uninterp spec fn sha256_of(bytes: Seq<u8>) -> Seq<u8>;

/// `sha2::Sha256::digest`: the digest of the bytes, which depends on them alone, as 32 bytes.
#[verifier::external_body]
fn sha256(bytes: &Vec<u8>) -> (r: Vec<u8>)
    ensures
        r@ == sha256_of(bytes@),
        r@.len() == 32,
{
    sha2::Sha256::digest(bytes).to_vec()
}

/// A hexadecimal digit, in lower case.
pub open spec fn hex_char(d: u8) -> char {
    if d < 10 {
        ((48 + d) as u8) as char
    } else {
        ((87 + d) as u8) as char
    }
}

/// Bytes in hexadecimal, two digits for each.
pub open spec fn hex_text(bytes: Seq<u8>) -> Seq<char>
    decreases bytes.len(),
{
    if bytes.len() == 0 {
        Seq::empty()
    } else {
        hex_text(bytes.drop_last()).push(hex_char(bytes.last() / 16)).push(hex_char(bytes.last() % 16))
    }
}

fn hex_digit(d: u8) -> (r: char)
    requires
        d < 16,
    ensures
        r == hex_char(d),
{
    if d < 10 {
        (48 + d) as char
    } else {
        (87 + d) as char
    }
}

/// Writes bytes in hexadecimal.
pub fn to_hex(bytes: &Vec<u8>) -> (r: String)
    ensures
        r@ == hex_text(bytes@),
{
    let mut out = String::new();
    let mut i: usize = 0;
    assert(bytes@.take(0) =~= Seq::empty());
    while i < bytes.len()
        invariant
            i <= bytes.len(),
            out@ == hex_text(bytes@.take(i as int)),
        decreases bytes.len() - i,
    {
        assert(bytes@.take(i + 1).drop_last() =~= bytes@.take(i as int));
        out.push(hex_digit(bytes[i] / 16));
        out.push(hex_digit(bytes[i] % 16));
        i += 1;
    }
    assert(bytes@.take(i as int) =~= bytes@);
    out
}

/// The bytes of two texts with a zero between them.
pub open spec fn zero_separated(a: Seq<char>, b: Seq<char>) -> Seq<u8> {
    encode_utf8(a) + seq![0u8] + encode_utf8(b)
}

fn push_text_bytes(out: &mut Vec<u8>, s: &str)
    ensures
        final(out)@ == old(out)@ + encode_utf8(s@),
{
    let ghost start = out@;
    let mut bytes = s.as_bytes_vec();
    out.append(&mut bytes);
    assert(out@ =~= start + encode_utf8(s@));
}

/// The id of an instance that a projection makes: the digest of its kind and of what it stands for.
pub open spec fn settings_id_for(kind: Seq<char>, value: Seq<char>) -> Seq<char> {
    "projection:"@ + hex_text(sha256_of(zero_separated(kind, value)))
}

/// Makes the id of an instance that a projection makes.
pub fn projection_settings_id(kind: &str, value: &str) -> (r: String)
    ensures
        r@ == settings_id_for(kind@, value@),
{
    let mut bytes: Vec<u8> = Vec::new();
    push_text_bytes(&mut bytes, kind);
    bytes.push(0);
    push_text_bytes(&mut bytes, value);
    assert(bytes@ =~= zero_separated(kind@, value@));
    let digest = sha256(&bytes);
    let hex = to_hex(&digest);
    joined("projection:", &hex)
}

/// The id of an entry of a projection.
pub open spec fn entry_id_for(kind: Seq<char>, source: Seq<char>, target: Seq<char>) -> Seq<char> {
    "projection:"@ + hex_text(sha256_of(zero_separated(kind, source) + seq![0u8] + encode_utf8(target)))
}

/// Makes the id of an entry of a projection: the digest of its kind, source and target.
pub fn projection_entry_id(kind: &str, source: &str, target: &str) -> (r: String)
    ensures
        r@ == entry_id_for(kind@, source@, target@),
{
    let mut bytes: Vec<u8> = Vec::new();
    push_text_bytes(&mut bytes, kind);
    bytes.push(0);
    push_text_bytes(&mut bytes, source);
    bytes.push(0);
    push_text_bytes(&mut bytes, target);
    assert(bytes@ =~= zero_separated(kind@, source@) + seq![0u8] + encode_utf8(target@));
    let digest = sha256(&bytes);
    let hex = to_hex(&digest);
    joined("projection:", &hex)
}

/// Makes an id from the digest of some bytes in hexadecimal.
pub fn sha256_hex(bytes: &Vec<u8>) -> (r: String)
    ensures
        r@ == hex_text(sha256_of(bytes@)),
{
    let digest = sha256(bytes);
    to_hex(&digest)
}

/// Digests of a digest's length are written in 64 digits.
pub proof fn law_hex_length(bytes: Seq<u8>)
    ensures
        hex_text(bytes).len() == 2 * bytes.len(),
    decreases bytes.len(),
{
    if bytes.len() > 0 {
        law_hex_length(bytes.drop_last());
    }
}

} // verus!
