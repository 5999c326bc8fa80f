//! The claims that a session token carries, and their text.
//!
//! The text is a JSON object with the members `sub`, `iat` and `exp`, in that
//! order and without white space. Reading is strict: a text is read back
//! exactly when it is the text of some claims.

use vstd::prelude::*;

use crate::bytes::{append, ascii, ascii_bytes, matches_at, stands_at};
use crate::decimal::{
    decimal, is_digit, is_number_at, lemma_decimal_shape, lemma_number_at_unique, read_decimal,
    write_decimal,
};
use crate::hex::{hex, lemma_hex_injective, lemma_hex_shape, lemma_span_of_u128, read_hex_u128, write_hex};
use crate::identity::Identity;

verus! {

/// Who a token speaks for, and from when until when.
#[derive(Debug, Clone, Copy, PartialEq, Eq, Structural)]
pub struct Claims {
    /// The identity that the bearer is taken for.
    pub subject: Identity,
    /// When the token was issued, in seconds since the Unix epoch.
    pub issued_at: u64,
    /// The last second at which the token is accepted.
    pub expiry: u64,
}

/// The text from the opening brace to the quote that opens the subject.
pub open spec fn opening() -> Seq<u8> {
    ascii("{\"sub\":\""@)
}

/// The text between the subject and the time of issue.
pub open spec fn before_issued_at() -> Seq<u8> {
    ascii("\",\"iat\":"@)
}

/// The text between the time of issue and the expiry.
pub open spec fn before_expiry() -> Seq<u8> {
    ascii(",\"exp\":"@)
}

/// The closing brace.
pub open spec fn closing() -> Seq<u8> {
    ascii("}"@)
}

/// The text of `c`: the subject as 32 hexadecimal digits in a string, the two
/// times as decimal numbers.
pub open spec fn claims_text(c: Claims) -> Seq<u8> {
    opening() + hex(c.subject.0 as nat, 32) + before_issued_at() + decimal(c.issued_at as nat)
        + before_expiry() + decimal(c.expiry as nat) + closing()
}

/// Whether each part of the text of `c` stands in `t` at its place.
spec fn parts_stand(t: Seq<u8>, c: Claims) -> bool {
    let a: int = 48 + decimal(c.issued_at as nat).len() as int;
    let b: int = a + 7 + decimal(c.expiry as nat).len() as int;
    &&& t.len() == b + 1
    &&& stands_at(t, 0, opening())
    &&& stands_at(t, 8, hex(c.subject.0 as nat, 32))
    &&& stands_at(t, 40, before_issued_at())
    &&& is_number_at(t, 48, c.issued_at as nat, a)
    &&& stands_at(t, a, before_expiry())
    &&& is_number_at(t, a + 7, c.expiry as nat, b)
    &&& stands_at(t, b, closing())
}

proof fn lemma_fixed_parts()
    ensures
        opening().len() == 8,
        before_issued_at().len() == 8,
        before_expiry().len() == 7,
        !is_digit(before_expiry()[0]),
        closing().len() == 1,
        !is_digit(closing()[0]),
{
    reveal_strlit("{\"sub\":\"");
    reveal_strlit("\",\"iat\":");
    reveal_strlit(",\"exp\":");
    reveal_strlit("}");
}

fn opening_bytes() -> (b: &'static [u8])
    ensures
        b@ == opening(),
{
    proof {
        reveal_strlit("{\"sub\":\"");
    }
    ascii_bytes("{\"sub\":\"")
}

fn before_issued_at_bytes() -> (b: &'static [u8])
    ensures
        b@ == before_issued_at(),
{
    proof {
        reveal_strlit("\",\"iat\":");
    }
    ascii_bytes("\",\"iat\":")
}

fn before_expiry_bytes() -> (b: &'static [u8])
    ensures
        b@ == before_expiry(),
{
    proof {
        reveal_strlit(",\"exp\":");
    }
    ascii_bytes(",\"exp\":")
}

fn closing_bytes() -> (b: &'static [u8])
    ensures
        b@ == closing(),
{
    proof {
        reveal_strlit("}");
    }
    ascii_bytes("}")
}

/// Each part of the text of `c` stands in it at its place.
proof fn lemma_layout(c: Claims)
    ensures
        parts_stand(claims_text(c), c),
{
    lemma_fixed_parts();
    lemma_hex_shape(c.subject.0 as nat, 32);
    lemma_decimal_shape(c.issued_at as nat);
    lemma_decimal_shape(c.expiry as nat);
    let t = claims_text(c);
    let a: int = 48 + decimal(c.issued_at as nat).len() as int;
    let b: int = a + 7 + decimal(c.expiry as nat).len() as int;
    assert(t.subrange(0, 8) =~= opening());
    assert(t.subrange(8, 40) =~= hex(c.subject.0 as nat, 32));
    assert(t.subrange(40, 48) =~= before_issued_at());
    assert(t.subrange(48, a) =~= decimal(c.issued_at as nat));
    assert(t.subrange(a, a + 7) =~= before_expiry());
    assert(t[a] == before_expiry()[0]);
    assert(t.subrange(a + 7, b) =~= decimal(c.expiry as nat));
    assert(t.subrange(b, b + 1) =~= closing());
    assert(t[b] == closing()[0]);
}

/// Two claims with one text are equal.
pub proof fn lemma_claims_text_injective(c1: Claims, c2: Claims)
    requires
        claims_text(c1) == claims_text(c2),
    ensures
        c1 == c2,
{
    lemma_layout(c1);
    lemma_layout(c2);
    let t = claims_text(c1);
    lemma_span_of_u128();
    lemma_hex_injective(c1.subject.0 as nat, c2.subject.0 as nat, 32);
    let a1: int = 48 + decimal(c1.issued_at as nat).len() as int;
    let a2: int = 48 + decimal(c2.issued_at as nat).len() as int;
    lemma_number_at_unique(t, 48, c1.issued_at as nat, a1, c2.issued_at as nat, a2);
    let b1: int = a1 + 7 + decimal(c1.expiry as nat).len() as int;
    let b2: int = a2 + 7 + decimal(c2.expiry as nat).len() as int;
    lemma_number_at_unique(t, a1 + 7, c1.expiry as nat, b1, c2.expiry as nat, b2);
}

/// Writes the text of `c`.
pub fn write_claims(c: &Claims) -> (text: Vec<u8>)
    ensures
        text@ == claims_text(*c),
{
    let mut text: Vec<u8> = Vec::new();
    append(&mut text, opening_bytes());
    write_hex(&mut text, c.subject.0, 32);
    append(&mut text, before_issued_at_bytes());
    write_decimal(&mut text, c.issued_at);
    append(&mut text, before_expiry_bytes());
    write_decimal(&mut text, c.expiry);
    append(&mut text, closing_bytes());
    assert(text@ =~= claims_text(*c));
    text
}

/// Reads claims back from their text.
///
/// Returns the claims whose text `text` is, and `None` exactly when `text` is
/// the text of no claims.
pub fn read_claims(text: &[u8]) -> (r: Option<Claims>)
    ensures
        match r {
            Some(c) => claims_text(c) == text@,
            None => forall|c: Claims| claims_text(c) != text@,
        },
{
    proof {
        lemma_fixed_parts();
        // Whatever claims the text is the text of, their parts stand where they are looked for.
        assert forall|c: Claims| #[trigger] claims_text(c) == text@ implies parts_stand(text@, c) by {
            lemma_layout(c);
        }
    }
    if !matches_at(text, 0, opening_bytes()) {
        return None;
    }
    let subject = match read_hex_u128(text, 8) {
        Some(v) => v,
        None => {
            return None;
        },
    };
    if !matches_at(text, 40, before_issued_at_bytes()) {
        return None;
    }
    let (issued_at, a) = match read_decimal(text, 48) {
        Some(found) => found,
        None => {
            return None;
        },
    };
    proof {
        assert forall|c: Claims| #[trigger] claims_text(c) == text@ implies 48 + decimal(
            c.issued_at as nat,
        ).len() == a by {
            lemma_number_at_unique(
                text@,
                48,
                c.issued_at as nat,
                48 + decimal(c.issued_at as nat).len() as int,
                issued_at as nat,
                a as int,
            );
        }
    }
    if !matches_at(text, a, before_expiry_bytes()) {
        return None;
    }
    assert(a + 7 <= text.len());
    let (expiry, b) = match read_decimal(text, a + 7) {
        Some(found) => found,
        None => {
            return None;
        },
    };
    proof {
        assert forall|c: Claims| #[trigger] claims_text(c) == text@ implies a + 7 + decimal(
            c.expiry as nat,
        ).len() == b by {
            lemma_number_at_unique(
                text@,
                a + 7,
                c.expiry as nat,
                a + 7 + decimal(c.expiry as nat).len() as int,
                expiry as nat,
                b as int,
            );
        }
    }
    if !matches_at(text, b, closing_bytes()) || text.len() - b != 1 {
        return None;
    }
    let c = Claims { subject: Identity(subject), issued_at, expiry };
    proof {
        let t = text@;
        assert(t =~= t.subrange(0, 8) + t.subrange(8, 40) + t.subrange(40, 48) + t.subrange(48, a as int)
            + t.subrange(a as int, a + 7) + t.subrange(a + 7, b as int) + t.subrange(b as int, b + 1));
    }
    Some(c)
}

} // verus!
