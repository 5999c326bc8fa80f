//! Small operations on byte strings that the codecs and the guard share.

use vstd::prelude::*;

verus! {

/// The bytes of a text of ASCII characters.
pub open spec fn ascii(s: Seq<char>) -> Seq<u8> {
    Seq::new(s.len(), |i: int| s[i] as u8)
}

/// Whether `pattern` stands in `text` at position `at`.
pub open spec fn stands_at(text: Seq<u8>, at: int, pattern: Seq<u8>) -> bool {
    0 <= at && at + pattern.len() <= text.len() && text.subrange(at, at + pattern.len()) == pattern
}

/// The bytes of a string of ASCII characters.
pub fn ascii_bytes(s: &str) -> (bytes: &[u8])
    requires
        s.is_ascii(),
    ensures
        bytes@ == ascii(s@),
{
    proof {
        vstd::string::is_ascii_spec_bytes(s);
    }
    s.as_bytes()
}

/// Appends `src` to `out`.
pub fn append(out: &mut Vec<u8>, src: &[u8])
    ensures
        final(out)@ == old(out)@ + src@,
{
    out.extend_from_slice(src);
    assert(out@ =~= old(out)@ + src@);
}

/// Tells whether two byte strings are equal.
pub fn bytes_eq(a: &[u8], b: &[u8]) -> (same: bool)
    ensures
        same == (a@ == b@),
{
    if a.len() != b.len() {
        return false;
    }
    let mut i: usize = 0;
    while i < a.len()
        invariant
            a@.len() == b@.len(),
            i <= a@.len(),
            forall|k: int| 0 <= k < i ==> a@[k] == b@[k],
        decreases a@.len() - i,
    {
        if a[i] != b[i] {
            return false;
        }
        i = i + 1;
    }
    assert(a@ =~= b@);
    true
}

/// Tells whether `pattern` stands in `text` at position `at`.
pub fn matches_at(text: &[u8], at: usize, pattern: &[u8]) -> (found: bool)
    ensures
        found == stands_at(text@, at as int, pattern@),
{
    let n = pattern.len();
    let len = text.len();
    if len < n || at > len - n {
        return false;
    }
    let mut i: usize = 0;
    while i < n
        invariant
            n == pattern@.len(),
            len == text@.len(),
            at + n <= len,
            i <= n,
            forall|k: int| 0 <= k < i ==> text@[at + k] == pattern@[k],
        decreases n - i,
    {
        if text[at + i] != pattern[i] {
            assert(text@.subrange(at as int, at + n)[i as int] != pattern@[i as int]);
            return false;
        }
        i = i + 1;
    }
    assert(text@.subrange(at as int, at + n) =~= pattern@);
    true
}

/// Finds the first occurrence of `byte` in `text` at or after `from`.
pub fn find_byte(text: &[u8], from: usize, byte: u8) -> (at: Option<usize>)
    ensures
        match at {
            Some(i) => from <= i < text@.len() && text@[i as int] == byte && forall|k: int|
                from <= k < i ==> text@[k] != byte,
            None => forall|k: int| from <= k < text@.len() ==> text@[k] != byte,
        },
{
    let mut i: usize = from;
    while i < text.len()
        invariant
            from <= i,
            forall|k: int| from <= k < i && k < text@.len() ==> text@[k] != byte,
        decreases text@.len() - i,
    {
        if text[i] == byte {
            return Some(i);
        }
        i = i + 1;
    }
    None
}

} // verus!
