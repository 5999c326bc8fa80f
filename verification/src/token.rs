//! The wire format of a claims token: three segments separated by dots, each
//! encoded in base64url on its own. The first is a fixed header, the second the
//! text of the claims, the third the signature over the first two and the dot
//! between them.
//!
//! Nothing here knows the signing key: composing takes a signature as given, and
//! parsing hands back whatever signature the token carries.

use vstd::prelude::*;
use vstd::slice::slice_subrange;

use crate::base64url::{
    decode, encode, encoding, in_alphabet, lemma_encoding_in_alphabet, lemma_encoding_injective,
};
use crate::bytes::{append, ascii, ascii_bytes, bytes_eq, find_byte};
use crate::claims::{claims_text, lemma_claims_text_injective, read_claims, write_claims, Claims};

verus! {

/// The character that separates the segments.
pub const DOT: u8 = 46;

/// The header: the signature is HMAC with SHA-256, the token a JWT.
pub open spec fn header_text() -> Seq<u8> {
    ascii("{\"alg\":\"HS256\",\"typ\":\"JWT\"}"@)
}

/// What the signature of a token with the claims `c` is computed over: the
/// encoded header, a dot, and the encoded text of the claims.
pub open spec fn signing_input(c: Claims) -> Seq<u8> {
    encoding(header_text()) + seq![DOT] + encoding(claims_text(c))
}

/// The token with the claims `c` and the signature `signature`.
pub open spec fn token_of(c: Claims, signature: Seq<u8>) -> Seq<u8> {
    signing_input(c) + seq![DOT] + encoding(signature)
}

/// What a well-formed token holds.
#[derive(Debug, Clone, PartialEq, Eq)]
pub struct TokenParts {
    /// The claims of the second segment.
    pub claims: Claims,
    /// The length of the part of the token that the signature covers.
    pub signed_len: usize,
    /// The signature of the third segment, decoded.
    pub signature: Vec<u8>,
}

/// Where the parts of a token stand in it, and where its dots are.
spec fn is_split(t: Seq<u8>, c: Claims, signature: Seq<u8>) -> bool {
    let first: int = encoding(header_text()).len() as int;
    let second: int = first + 1 + encoding(claims_text(c)).len();
    &&& t.len() == second + 1 + encoding(signature).len()
    &&& t.subrange(0, first) == encoding(header_text())
    &&& t[first] == DOT
    &&& forall|k: int| 0 <= k < first ==> t[k] != DOT
    &&& t.subrange(first + 1, second) == encoding(claims_text(c))
    &&& t[second] == DOT
    &&& forall|k: int| first < k < second ==> t[k] != DOT
    &&& t.subrange(second + 1, t.len() as int) == encoding(signature)
    &&& t.subrange(0, second) == signing_input(c)
}

proof fn lemma_no_dot_in_encoding(data: Seq<u8>)
    ensures
        forall|i: int| 0 <= i < encoding(data).len() ==> encoding(data)[i] != DOT,
{
    lemma_encoding_in_alphabet(data);
    assert forall|i: int| 0 <= i < encoding(data).len() implies encoding(data)[i] != DOT by {
        assert(in_alphabet(encoding(data)[i]));
    }
}

proof fn lemma_split(c: Claims, signature: Seq<u8>)
    ensures
        is_split(token_of(c, signature), c, signature),
{
    let t = token_of(c, signature);
    let h = encoding(header_text());
    let cl = encoding(claims_text(c));
    let sg = encoding(signature);
    let first: int = h.len() as int;
    let second: int = first + 1 + cl.len();
    lemma_no_dot_in_encoding(header_text());
    lemma_no_dot_in_encoding(claims_text(c));
    assert(t.subrange(0, first) =~= h);
    assert(t.subrange(first + 1, second) =~= cl);
    assert(t.subrange(second + 1, t.len() as int) =~= sg);
    assert(t.subrange(0, second) =~= signing_input(c));
    assert forall|k: int| 0 <= k < first implies t[k] != DOT by {
        assert(t[k] == h[k]);
    }
    assert forall|k: int| first < k < second implies t[k] != DOT by {
        assert(t[k] == cl[k - first - 1]);
    }
}

/// A token determines its claims and its signature.
pub proof fn lemma_token_of_injective(c1: Claims, s1: Seq<u8>, c2: Claims, s2: Seq<u8>)
    requires
        token_of(c1, s1) == token_of(c2, s2),
    ensures
        c1 == c2,
        s1 == s2,
{
    lemma_split(c1, s1);
    lemma_split(c2, s2);
    let t = token_of(c1, s1);
    let first: int = encoding(header_text()).len() as int;
    let second1: int = first + 1 + encoding(claims_text(c1)).len();
    let second2: int = first + 1 + encoding(claims_text(c2)).len();
    assert(second1 == second2) by {
        if second1 < second2 {
            assert(t[second1] == DOT);
        } else if second2 < second1 {
            assert(t[second2] == DOT);
        }
    }
    lemma_encoding_injective(claims_text(c1), claims_text(c2));
    lemma_claims_text_injective(c1, c2);
    lemma_encoding_injective(s1, s2);
}

fn header_bytes() -> (b: &'static [u8])
    ensures
        b@ == header_text(),
{
    proof {
        reveal_strlit("{\"alg\":\"HS256\",\"typ\":\"JWT\"}");
    }
    ascii_bytes("{\"alg\":\"HS256\",\"typ\":\"JWT\"}")
}

/// Writes what the signature of a token with the claims `claims` covers.
pub fn signing_text(claims: &Claims) -> (text: Vec<u8>)
    ensures
        text@ == signing_input(*claims),
{
    let mut text = encode(header_bytes());
    text.push(DOT);
    let body = encode(write_claims(claims).as_slice());
    append(&mut text, body.as_slice());
    assert(text@ =~= signing_input(*claims));
    text
}

/// Writes the token with the claims `claims` and the signature `signature`.
pub fn compose(claims: &Claims, signature: &[u8]) -> (token: Vec<u8>)
    ensures
        token@ == token_of(*claims, signature@),
{
    let mut token = signing_text(claims);
    token.push(DOT);
    let seal = encode(signature);
    append(&mut token, seal.as_slice());
    assert(token@ =~= token_of(*claims, signature@));
    token
}

/// Takes a token apart.
///
/// Returns the claims and the signature that `token` is composed of, and
/// `None` exactly when `token` is composed of none: it has fewer than two dots,
/// another header, or a segment that strict decoding or reading refuses.
/// Whether the signature is the right one is not looked at.
pub fn parse(token: &[u8]) -> (r: Option<TokenParts>)
    ensures
        match r {
            Some(parts) => token@ == token_of(parts.claims, parts.signature@) && parts.signed_len
                == signing_input(parts.claims).len(),
            None => forall|c: Claims, signature: Seq<u8>| token_of(c, signature) != token@,
        },
{
    let len = token.len();
    proof {
        // Whatever the token is composed of, its parts stand where they are looked for.
        assert forall|c: Claims, signature: Seq<u8>| #[trigger]
            token_of(c, signature) == token@ implies is_split(token@, c, signature) by {
            lemma_split(c, signature);
        }
    }
    let first = match find_byte(token, 0, DOT) {
        Some(i) => i,
        None => {
            return None;
        },
    };
    let second = match find_byte(token, first + 1, DOT) {
        Some(i) => i,
        None => {
            return None;
        },
    };
    let header = encode(header_bytes());
    if !bytes_eq(slice_subrange(token, 0, first), header.as_slice()) {
        return None;
    }
    let body = match decode(slice_subrange(token, first + 1, second)) {
        Some(b) => b,
        None => {
            return None;
        },
    };
    let claims = match read_claims(body.as_slice()) {
        Some(c) => c,
        None => {
            proof {
                assert forall|c: Claims| encoding(claims_text(c)) == encoding(body@) implies claims_text(c)
                    == body@ by {
                    lemma_encoding_injective(claims_text(c), body@);
                }
            }
            return None;
        },
    };
    let signature = match decode(slice_subrange(token, second + 1, len)) {
        Some(s) => s,
        None => {
            return None;
        },
    };
    proof {
        let t = token@;
        assert(t =~= t.subrange(0, first as int) + seq![DOT] + t.subrange(first + 1, second as int)
            + seq![DOT] + t.subrange(second + 1, len as int));
    }
    Some(TokenParts { claims, signed_len: second, signature })
}

} // verus!
