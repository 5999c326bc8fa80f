//! Base64 with the URL-safe alphabet and without padding, as the segments of a
//! claims token are written.
//!
//! Decoding is strict: it accepts a text exactly when some byte string encodes
//! to it, so no two texts decode to the same bytes.

use vstd::prelude::*;

verus! {

/// The character that stands for the six-bit value `v`.
pub open spec fn symbol(v: int) -> u8
    recommends
        0 <= v < 64,
{
    if v < 26 {
        (65 + v) as u8
    } else if v < 52 {
        (71 + v) as u8
    } else if v < 62 {
        (v - 4) as u8
    } else if v == 62 {
        45u8
    } else {
        95u8
    }
}

/// The six-bit value that the character `c` stands for, if it is in the alphabet.
pub open spec fn sextet(c: u8) -> Option<int> {
    if 65 <= c <= 90 {
        Some(c as int - 65)
    } else if 97 <= c <= 122 {
        Some(c as int - 71)
    } else if 48 <= c <= 57 {
        Some(c as int + 4)
    } else if c == 45 {
        Some(62int)
    } else if c == 95 {
        Some(63int)
    } else {
        None
    }
}

/// The four characters that encode three bytes.
pub open spec fn quad(b0: int, b1: int, b2: int) -> Seq<u8> {
    seq![
        symbol(b0 / 4),
        symbol((b0 % 4) * 16 + b1 / 16),
        symbol((b1 % 16) * 4 + b2 / 64),
        symbol(b2 % 64),
    ]
}

/// The three characters that encode a final group of two bytes.
pub open spec fn triple(b0: int, b1: int) -> Seq<u8> {
    seq![symbol(b0 / 4), symbol((b0 % 4) * 16 + b1 / 16), symbol((b1 % 16) * 4)]
}

/// The two characters that encode a final group of one byte.
pub open spec fn pair(b0: int) -> Seq<u8> {
    seq![symbol(b0 / 4), symbol((b0 % 4) * 16)]
}

/// The encoding of `data`: each group of three bytes becomes four characters, and
/// a shorter last group becomes two or three. No padding is written.
pub open spec fn encoding(data: Seq<u8>) -> Seq<u8>
    decreases data.len(),
{
    if data.len() == 0 {
        Seq::empty()
    } else if data.len() == 1 {
        pair(data[0] as int)
    } else if data.len() == 2 {
        triple(data[0] as int, data[1] as int)
    } else {
        quad(data[0] as int, data[1] as int, data[2] as int) + encoding(data.skip(3))
    }
}

/// Whether `c` belongs to the alphabet.
pub open spec fn in_alphabet(c: u8) -> bool {
    sextet(c) is Some
}

/// What strict decoding makes of `text`, group by group from the front.
spec fn decoding(text: Seq<u8>) -> Option<Seq<u8>>
    decreases text.len(),
{
    if text.len() == 0 {
        Some(Seq::empty())
    } else if text.len() == 1 {
        None
    } else if text.len() == 2 {
        match (sextet(text[0]), sextet(text[1])) {
            (Some(a), Some(b)) => if b % 16 == 0 {
                Some(seq![(a * 4 + b / 16) as u8])
            } else {
                None
            },
            _ => None,
        }
    } else if text.len() == 3 {
        match (sextet(text[0]), sextet(text[1]), sextet(text[2])) {
            (Some(a), Some(b), Some(c)) => if c % 4 == 0 {
                Some(seq![(a * 4 + b / 16) as u8, ((b % 16) * 16 + c / 4) as u8])
            } else {
                None
            },
            _ => None,
        }
    } else {
        match (sextet(text[0]), sextet(text[1]), sextet(text[2]), sextet(text[3])) {
            (Some(a), Some(b), Some(c), Some(d)) => match decoding(text.skip(4)) {
                Some(rest) => Some(
                    seq![
                        (a * 4 + b / 16) as u8,
                        ((b % 16) * 16 + c / 4) as u8,
                        ((c % 4) * 64 + d) as u8,
                    ] + rest,
                ),
                None => None,
            },
            _ => None,
        }
    }
}

proof fn lemma_symbol_sextet(v: int)
    requires
        0 <= v < 64,
    ensures
        sextet(symbol(v)) == Some(v),
{
}

proof fn lemma_sextet_symbol(c: u8)
    requires
        sextet(c) is Some,
    ensures
        0 <= sextet(c).unwrap() < 64,
        symbol(sextet(c).unwrap()) == c,
{
}

/// Strict decoding undoes encoding.
proof fn lemma_decoding_of_encoding(data: Seq<u8>)
    ensures
        decoding(encoding(data)) == Some(data),
    decreases data.len(),
{
    let text = encoding(data);
    if data.len() == 0 {
    } else if data.len() == 1 {
        let b0 = data[0] as int;
        lemma_symbol_sextet(b0 / 4);
        lemma_symbol_sextet((b0 % 4) * 16);
        assert(decoding(text).unwrap() =~= data);
    } else if data.len() == 2 {
        let b0 = data[0] as int;
        let b1 = data[1] as int;
        lemma_symbol_sextet(b0 / 4);
        lemma_symbol_sextet((b0 % 4) * 16 + b1 / 16);
        lemma_symbol_sextet((b1 % 16) * 4);
        assert(decoding(text).unwrap() =~= data);
    } else {
        let b0 = data[0] as int;
        let b1 = data[1] as int;
        let b2 = data[2] as int;
        lemma_symbol_sextet(b0 / 4);
        lemma_symbol_sextet((b0 % 4) * 16 + b1 / 16);
        lemma_symbol_sextet((b1 % 16) * 4 + b2 / 64);
        lemma_symbol_sextet(b2 % 64);
        lemma_decoding_of_encoding(data.skip(3));
        assert(text.skip(4) =~= encoding(data.skip(3)));
        assert(text.len() >= 4);
        assert(decoding(text).unwrap() =~= data);
    }
}

/// What strict decoding accepts is the encoding of what it yields.
proof fn lemma_encoding_of_decoding(text: Seq<u8>)
    requires
        decoding(text) is Some,
    ensures
        encoding(decoding(text).unwrap()) == text,
    decreases text.len(),
{
    let data = decoding(text).unwrap();
    if text.len() == 0 {
    } else if text.len() == 2 {
        lemma_sextet_symbol(text[0]);
        lemma_sextet_symbol(text[1]);
        assert(encoding(data) =~= text);
    } else if text.len() == 3 {
        lemma_sextet_symbol(text[0]);
        lemma_sextet_symbol(text[1]);
        lemma_sextet_symbol(text[2]);
        assert(encoding(data) =~= text);
    } else {
        lemma_sextet_symbol(text[0]);
        lemma_sextet_symbol(text[1]);
        lemma_sextet_symbol(text[2]);
        lemma_sextet_symbol(text[3]);
        lemma_encoding_of_decoding(text.skip(4));
        let rest = decoding(text.skip(4)).unwrap();
        assert(data.skip(3) =~= rest);
        assert(encoding(data) =~= text);
    }
}

/// Two byte strings with one encoding are equal.
pub proof fn lemma_encoding_injective(a: Seq<u8>, b: Seq<u8>)
    requires
        encoding(a) == encoding(b),
    ensures
        a == b,
{
    lemma_decoding_of_encoding(a);
    lemma_decoding_of_encoding(b);
}

/// Every character of an encoding belongs to the alphabet.
pub proof fn lemma_encoding_in_alphabet(data: Seq<u8>)
    ensures
        forall|i: int| 0 <= i < encoding(data).len() ==> in_alphabet(#[trigger] encoding(data)[i]),
    decreases data.len(),
{
    if data.len() == 0 {
    } else if data.len() == 1 {
        let b0 = data[0] as int;
        lemma_symbol_sextet(b0 / 4);
        lemma_symbol_sextet((b0 % 4) * 16);
    } else if data.len() == 2 {
        let b0 = data[0] as int;
        let b1 = data[1] as int;
        lemma_symbol_sextet(b0 / 4);
        lemma_symbol_sextet((b0 % 4) * 16 + b1 / 16);
        lemma_symbol_sextet((b1 % 16) * 4);
    } else {
        let b0 = data[0] as int;
        let b1 = data[1] as int;
        let b2 = data[2] as int;
        lemma_symbol_sextet(b0 / 4);
        lemma_symbol_sextet((b0 % 4) * 16 + b1 / 16);
        lemma_symbol_sextet((b1 % 16) * 4 + b2 / 64);
        lemma_symbol_sextet(b2 % 64);
        lemma_encoding_in_alphabet(data.skip(3));
        let head = quad(b0, b1, b2);
        let tail = encoding(data.skip(3));
        assert forall|i: int| 0 <= i < encoding(data).len() implies in_alphabet(
            #[trigger] encoding(data)[i],
        ) by {
            if i >= 4 {
                assert(encoding(data)[i] == tail[i - 4]);
            } else {
                assert(encoding(data)[i] == head[i]);
            }
        }
    }
}

/// Returns the character for the six-bit value `v`.
fn symbol_of(v: u8) -> (c: u8)
    requires
        v < 64,
    ensures
        c == symbol(v as int),
{
    if v < 26 {
        65 + v
    } else if v < 52 {
        71 + v
    } else if v < 62 {
        v - 4
    } else if v == 62 {
        45
    } else {
        95
    }
}

/// Returns the six-bit value of the character `c`, or `None` outside the alphabet.
fn sextet_of(c: u8) -> (v: Option<u8>)
    ensures
        match v {
            Some(x) => sextet(c) == Some(x as int) && x < 64,
            None => sextet(c) is None,
        },
{
    if 65 <= c && c <= 90 {
        Some(c - 65)
    } else if 97 <= c && c <= 122 {
        Some(c - 71)
    } else if 48 <= c && c <= 57 {
        Some(c + 4)
    } else if c == 45 {
        Some(62)
    } else if c == 95 {
        Some(63)
    } else {
        None
    }
}

/// Encodes `data`.
pub fn encode(data: &[u8]) -> (text: Vec<u8>)
    ensures
        text@ == encoding(data@),
{
    let n = data.len();
    let mut text: Vec<u8> = Vec::new();
    let mut i: usize = 0;
    assert(data@.skip(0) =~= data@);
    while n - i >= 3
        invariant
            n == data@.len(),
            i <= n,
            encoding(data@) == text@ + encoding(data@.skip(i as int)),
        decreases n - i,
    {
        let b0 = data[i];
        let b1 = data[i + 1];
        let b2 = data[i + 2];
        proof {
            let rest = data@.skip(i as int);
            assert(rest.skip(3) =~= data@.skip(i + 3));
            assert(rest[0] == b0 && rest[1] == b1 && rest[2] == b2);
            assert(text@ + (quad(b0 as int, b1 as int, b2 as int) + encoding(rest.skip(3))) =~= text@
                + quad(b0 as int, b1 as int, b2 as int) + encoding(rest.skip(3)));
        }
        let ghost before = text@;
        text.push(symbol_of(b0 / 4));
        text.push(symbol_of((b0 % 4) * 16 + b1 / 16));
        text.push(symbol_of((b1 % 16) * 4 + b2 / 64));
        text.push(symbol_of(b2 % 64));
        assert(text@ =~= before + quad(b0 as int, b1 as int, b2 as int));
        i = i + 3;
    }
    let ghost before = text@;
    let ghost rest = data@.skip(i as int);
    if n - i == 1 {
        let b0 = data[i];
        text.push(symbol_of(b0 / 4));
        text.push(symbol_of((b0 % 4) * 16));
        assert(rest[0] == b0);
        assert(text@ =~= before + pair(b0 as int));
    } else if n - i == 2 {
        let b0 = data[i];
        let b1 = data[i + 1];
        text.push(symbol_of(b0 / 4));
        text.push(symbol_of((b0 % 4) * 16 + b1 / 16));
        text.push(symbol_of((b1 % 16) * 4));
        assert(rest[0] == b0 && rest[1] == b1);
        assert(text@ =~= before + triple(b0 as int, b1 as int));
    } else {
        assert(text@ =~= before + encoding(rest));
    }
    text
}

/// Decodes `text`, strictly.
///
/// Returns the bytes whose encoding `text` is, and `None` exactly when `text` is
/// the encoding of nothing: a character outside the alphabet, an impossible
/// length, or unused bits that are not zero.
pub fn decode(text: &[u8]) -> (r: Option<Vec<u8>>)
    ensures
        match r {
            Some(data) => encoding(data@) == text@,
            None => forall|data: Seq<u8>| encoding(data) != text@,
        },
{
    let n = text.len();
    let mut data: Vec<u8> = Vec::new();
    let mut i: usize = 0;
    let mut failed = false;
    assert(text@.skip(0) =~= text@);
    while n - i >= 4 && !failed
        invariant
            n == text@.len(),
            i <= n,
            failed ==> decoding(text@) is None,
            !failed ==> decoding(text@) == match decoding(text@.skip(i as int)) {
                Some(rest) => Some(data@ + rest),
                None => None,
            },
        decreases n - i + if failed { 0int } else { 1int },
    {
        let ghost rest = text@.skip(i as int);
        proof {
            assert(rest.skip(4) =~= text@.skip(i + 4));
            assert(rest[0] == text@[i as int] && rest[1] == text@[i + 1] && rest[2] == text@[i + 2]
                && rest[3] == text@[i + 3]);
        }
        match (sextet_of(text[i]), sextet_of(text[i + 1]), sextet_of(text[i + 2]), sextet_of(text[i + 3])) {
            (Some(a), Some(b), Some(c), Some(d)) => {
                let ghost before = data@;
                data.push(a * 4 + b / 16);
                data.push((b % 16) * 16 + c / 4);
                data.push((c % 4) * 64 + d);
                proof {
                    let three = seq![
                        (a * 4 + b / 16) as u8,
                        ((b % 16) * 16 + c / 4) as u8,
                        ((c % 4) * 64 + d) as u8,
                    ];
                    assert(data@ =~= before + three);
                    match decoding(rest.skip(4)) {
                        Some(tail) => {
                            assert(before + (three + tail) =~= data@ + tail);
                        },
                        None => {},
                    }
                }
                i = i + 4;
            },
            _ => {
                failed = true;
            },
        }
    }
    if failed {
        proof {
            assert forall|any: Seq<u8>| encoding(any) != text@ by {
                lemma_decoding_of_encoding(any);
            }
        }
        return None;
    }
    let ghost rest = text@.skip(i as int);
    let ghost before = data@;
    let mut ok = true;
    if n - i == 1 {
        ok = false;
    } else if n - i == 2 {
        assert(rest[0] == text@[i as int] && rest[1] == text@[i + 1]);
        match (sextet_of(text[i]), sextet_of(text[i + 1])) {
            (Some(a), Some(b)) => {
                if b % 16 == 0 {
                    data.push(a * 4 + b / 16);
                    assert(data@ =~= before + decoding(rest).unwrap());
                } else {
                    ok = false;
                }
            },
            _ => {
                ok = false;
            },
        }
    } else if n - i == 3 {
        assert(rest[0] == text@[i as int] && rest[1] == text@[i + 1] && rest[2] == text@[i + 2]);
        match (sextet_of(text[i]), sextet_of(text[i + 1]), sextet_of(text[i + 2])) {
            (Some(a), Some(b), Some(c)) => {
                if c % 4 == 0 {
                    data.push(a * 4 + b / 16);
                    data.push((b % 16) * 16 + c / 4);
                    assert(data@ =~= before + decoding(rest).unwrap());
                } else {
                    ok = false;
                }
            },
            _ => {
                ok = false;
            },
        }
    } else {
        assert(data@ =~= before + decoding(rest).unwrap());
    }
    if ok {
        proof {
            assert(decoding(text@) == Some(data@));
            lemma_encoding_of_decoding(text@);
        }
        Some(data)
    } else {
        proof {
            assert(decoding(text@) is None);
            assert forall|any: Seq<u8>| encoding(any) != text@ by {
                lemma_decoding_of_encoding(any);
            }
        }
        None
    }
}

} // verus!
