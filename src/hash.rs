use vstd::prelude::*;
use sha2::Digest;
use crate::text::{append_chars, decimal, decimal_of, digit_char, string_of};

verus! {

/// The SHA-256 digest of a text's UTF-8 bytes.
pub uninterp spec fn sha256_of(s: Seq<char>) -> Seq<u8>;

/// The lowercase hex digit of `d`, for `d < 16`.
pub open spec fn hex_digit(d: nat) -> char {
    if d < 10 {
        digit_char(d)
    } else if d == 10 {
        'a'
    } else if d == 11 {
        'b'
    } else if d == 12 {
        'c'
    } else if d == 13 {
        'd'
    } else if d == 14 {
        'e'
    } else {
        'f'
    }
}

/// Two lowercase hex digits per byte, high nibble first.
pub open spec fn hex_lower(b: Seq<u8>) -> Seq<char>
    decreases b.len(),
{
    if b.len() == 0 {
        seq![]
    } else {
        hex_lower(b.drop_last()) + seq![
            hex_digit((b.last() / 16) as nat),
            hex_digit((b.last() % 16) as nat),
        ]
    }
}

/// What the identifier of the `ordinal`-th slice of a chunk is computed from.
pub open spec fn id_source(text: Seq<char>, ordinal: nat) -> Seq<char> {
    text + seq!['-'] + decimal(ordinal)
}

/// The identifier of the `ordinal`-th slice of a chunk whose text is `text`.
pub open spec fn content_id_of(text: Seq<char>, ordinal: nat) -> Seq<char> {
    hex_lower(sha256_of(id_source(text, ordinal)))
}

/// Relies on `sha2::Sha256::digest`: 32 bytes that depend on the text alone.
#[verifier::external_body]
fn sha256_digest(content: &str) -> (r: Vec<u8>)
    ensures
        r@ == sha256_of(content@),
        r@.len() == 32,
{
    sha2::Sha256::digest(content.as_bytes()).to_vec()
}

/// Relies on `hex::encode`: two lowercase hex digits per byte, in order.
#[verifier::external_body]
fn hex_encode(bytes: &Vec<u8>) -> (r: String)
    ensures
        r@ == hex_lower(bytes@),
{
    hex::encode(bytes)
}

/// The lowercase hex SHA-256 digest of `content`.
pub fn compute_hash(content: &str) -> (r: String)
    ensures
        r@ == hex_lower(sha256_of(content@)),
        r@.len() == 64,
{
    let digest = sha256_digest(content);
    proof {
        lemma_hex_len(digest@);
    }
    hex_encode(&digest)
}

pub proof fn lemma_hex_len(b: Seq<u8>)
    ensures
        hex_lower(b).len() == 2 * b.len(),
    decreases b.len(),
{
    if b.len() > 0 {
        lemma_hex_len(b.drop_last());
    }
}

/// The identifier of the `ordinal`-th slice of a chunk: the digest of the slice's
/// text, a dash and the ordinal in decimal.
pub fn content_id(text: &Vec<char>, ordinal: usize) -> (r: String)
    ensures
        r@ == content_id_of(text@, ordinal as nat),
{
    let mut source = text.clone();
    source.push('-');
    let digits = decimal_of(ordinal);
    append_chars(&mut source, &digits);
    proof {
        assert(source@ =~= id_source(text@, ordinal as nat));
    }
    let s = string_of(&source);
    compute_hash(s.as_str())
}

} // verus!
