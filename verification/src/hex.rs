//! Numbers in hexadecimal notation of fixed width, with the digits `0` to `9` and
//! `a` to `f`, most significant digit first.

use vstd::prelude::*;

verus! {

/// The character that stands for the four-bit value `v`.
pub open spec fn hex_symbol(v: int) -> u8
    recommends
        0 <= v < 16,
{
    if v < 10 {
        (48 + v) as u8
    } else {
        (87 + v) as u8
    }
}

/// The four-bit value that the character `c` stands for, if it is a digit of
/// this notation.
pub open spec fn nibble(c: u8) -> Option<int> {
    if 48 <= c <= 57 {
        Some(c as int - 48)
    } else if 97 <= c <= 102 {
        Some(c as int - 87)
    } else {
        None
    }
}

/// The number of values that `width` digits can denote: 16 to that power.
pub open spec fn span(width: nat) -> nat
    decreases width,
{
    if width == 0 {
        1
    } else {
        16 * span((width - 1) as nat)
    }
}

/// The last `width` hexadecimal digits of `n`, padded with zeros on the left.
pub open spec fn hex(n: nat, width: nat) -> Seq<u8>
    decreases width,
{
    if width == 0 {
        Seq::empty()
    } else {
        hex(n / 16, (width - 1) as nat).push(hex_symbol((n % 16) as int))
    }
}

/// Whether every character of `s` is a digit of this notation.
pub open spec fn all_hex(s: Seq<u8>) -> bool {
    forall|i: int| 0 <= i < s.len() ==> nibble(#[trigger] s[i]) is Some
}

/// The number that the digits of `s` denote, read from the left.
spec fn value(s: Seq<u8>) -> nat
    decreases s.len(),
{
    if s.len() == 0 {
        0
    } else {
        (value(s.drop_last()) * 16 + nibble(s.last()).unwrap()) as nat
    }
}

/// A notation of width `width` has that many characters, all of them digits.
pub proof fn lemma_hex_shape(n: nat, width: nat)
    ensures
        hex(n, width).len() == width,
        all_hex(hex(n, width)),
    decreases width,
{
    if width > 0 {
        lemma_hex_shape(n / 16, (width - 1) as nat);
        let init = hex(n / 16, (width - 1) as nat);
        assert forall|i: int| 0 <= i < hex(n, width).len() implies nibble(#[trigger] hex(n, width)[i])
            is Some by {
            if i < init.len() {
                assert(hex(n, width)[i] == init[i]);
            }
        }
    }
}

proof fn lemma_value_of_hex(n: nat, width: nat)
    requires
        n < span(width),
    ensures
        value(hex(n, width)) == n,
    decreases width,
{
    if width == 0 {
    } else {
        lemma_value_of_hex(n / 16, (width - 1) as nat);
        assert(hex(n, width).drop_last() =~= hex(n / 16, (width - 1) as nat));
    }
}

proof fn lemma_hex_of_value(s: Seq<u8>)
    requires
        all_hex(s),
    ensures
        value(s) < span(s.len()),
        hex(value(s), s.len()) == s,
    decreases s.len(),
{
    if s.len() == 0 {
        assert(hex(value(s), 0) =~= s);
    } else {
        let init = s.drop_last();
        assert(all_hex(init)) by {
            assert forall|i: int| 0 <= i < init.len() implies nibble(#[trigger] init[i]) is Some by {
                assert(init[i] == s[i]);
            }
        }
        lemma_hex_of_value(init);
        assert(nibble(s.last()) is Some);
        let d = nibble(s.last()).unwrap();
        let v = value(s);
        assert(v == value(init) * 16 + d);
        assert(v / 16 == value(init));
        assert(v % 16 == d);
        assert(hex_symbol(d) == s.last());
        assert(hex(v, s.len()) =~= s);
    }
}

/// Two numbers below 16 to the power `width` with one notation of that width
/// are equal.
pub proof fn lemma_hex_injective(a: nat, b: nat, width: nat)
    requires
        a < span(width),
        b < span(width),
        hex(a, width) == hex(b, width),
    ensures
        a == b,
{
    lemma_value_of_hex(a, width);
    lemma_value_of_hex(b, width);
}

proof fn lemma_span_monotone(a: nat, b: nat)
    requires
        a <= b,
    ensures
        span(a) <= span(b),
    decreases b,
{
    if a < b {
        lemma_span_monotone(a, (b - 1) as nat);
    }
}

/// Thirty-two digits denote exactly the 128-bit numbers.
pub proof fn lemma_span_of_u128()
    ensures
        span(32) == 0x1_0000_0000_0000_0000_0000_0000_0000_0000,
{
    reveal_with_fuel(span, 33);
}

/// Returns the character for the four-bit value `v`.
fn hex_symbol_of(v: u8) -> (c: u8)
    requires
        v < 16,
    ensures
        c == hex_symbol(v as int),
{
    if v < 10 {
        48 + v
    } else {
        87 + v
    }
}

/// Appends the last `width` hexadecimal digits of `n` to `out`.
pub fn write_hex(out: &mut Vec<u8>, n: u128, width: usize)
    ensures
        final(out)@ == old(out)@ + hex(n as nat, width as nat),
    decreases width,
{
    if width == 0 {
        assert(out@ =~= old(out)@ + hex(n as nat, 0));
    } else {
        write_hex(out, n / 16, width - 1);
        out.push(hex_symbol_of((n % 16) as u8));
        assert(out@ =~= old(out)@ + hex(n as nat, width as nat));
    }
}

/// Reads the 128-bit number whose 32 hexadecimal digits start at `start`.
///
/// Returns `None` exactly when fewer than 32 characters follow `start` or one
/// of the 32 is no digit of this notation.
pub fn read_hex_u128(text: &[u8], start: usize) -> (r: Option<u128>)
    ensures
        match r {
            Some(n) => start + 32 <= text@.len() && text@.subrange(start as int, start + 32) == hex(
                n as nat,
                32,
            ),
            None => forall|n: u128|
                !(start + 32 <= text@.len() && text@.subrange(start as int, start + 32) == hex(
                    n as nat,
                    32,
                )),
        },
{
    let len = text.len();
    if len < 32 || start > len - 32 {
        return None;
    }
    let ghost run = text@.subrange(start as int, start + 32);
    let mut v: u128 = 0;
    let mut i: usize = 0;
    proof {
        assert(run.take(0) =~= Seq::<u8>::empty());
        lemma_span_of_u128();
    }
    while i < 32
        invariant
            len == text@.len(),
            start + 32 <= len,
            i <= 32,
            run == text@.subrange(start as int, start + 32),
            all_hex(run.take(i as int)),
            v == value(run.take(i as int)),
            span(32) == 0x1_0000_0000_0000_0000_0000_0000_0000_0000,
        decreases 32 - i,
    {
        let c = text[start + i];
        assert(run[i as int] == c);
        let d: u8 = if 48 <= c && c <= 57 {
            c - 48
        } else if 97 <= c && c <= 102 {
            c - 87
        } else {
            proof {
                assert forall|n: u128| run != hex(n as nat, 32) by {
                    lemma_hex_shape(n as nat, 32);
                    if run == hex(n as nat, 32) {
                        assert(nibble(hex(n as nat, 32)[i as int]) is Some);
                    }
                }
            }
            return None;
        };
        proof {
            let next = run.take(i + 1);
            assert(next.drop_last() =~= run.take(i as int));
            assert(next.last() == c);
            assert(all_hex(next)) by {
                assert forall|j: int| 0 <= j < next.len() implies nibble(#[trigger] next[j]) is Some by {
                    if j < i {
                        assert(next[j] == run.take(i as int)[j]);
                    }
                }
            }
            lemma_hex_of_value(next);
            lemma_span_monotone((i + 1) as nat, 32);
            assert(value(next) == v * 16 + d);
        }
        v = v * 16 + d as u128;
        i = i + 1;
    }
    proof {
        assert(run.take(32) =~= run);
        lemma_hex_of_value(run);
    }
    Some(v)
}

} // verus!
