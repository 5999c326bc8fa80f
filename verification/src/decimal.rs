//! Unsigned numbers in decimal notation, as JSON writes them: at least one
//! digit, no sign, and no leading zero but for zero itself.

use vstd::prelude::*;

verus! {

/// Whether `c` is one of the characters `0` to `9`.
pub open spec fn is_digit(c: u8) -> bool {
    48 <= c <= 57
}

/// The decimal notation of `n`.
pub open spec fn decimal(n: nat) -> Seq<u8>
    decreases n,
{
    if n < 10 {
        seq![(48 + n) as u8]
    } else {
        decimal(n / 10).push((48 + n % 10) as u8)
    }
}

/// Whether every character of `s` is a digit.
pub open spec fn all_digits(s: Seq<u8>) -> bool {
    forall|i: int| 0 <= i < s.len() ==> is_digit(#[trigger] s[i])
}

/// The number that the digits of `s` denote, read from the left.
spec fn value(s: Seq<u8>) -> nat
    decreases s.len(),
{
    if s.len() == 0 {
        0
    } else {
        (value(s.drop_last()) * 10 + (s.last() - 48)) as nat
    }
}

/// A decimal notation is a run of digits that is not empty and has no leading
/// zero unless it is the one digit `0`.
pub proof fn lemma_decimal_shape(n: nat)
    ensures
        decimal(n).len() >= 1,
        all_digits(decimal(n)),
        decimal(n).len() == 1 || decimal(n)[0] != 48,
        n >= 1 ==> decimal(n)[0] != 48,
    decreases n,
{
    if n >= 10 {
        lemma_decimal_shape(n / 10);
        let init = decimal(n / 10);
        assert forall|i: int| 0 <= i < decimal(n).len() implies is_digit(#[trigger] decimal(n)[i]) by {
            if i < init.len() {
                assert(decimal(n)[i] == init[i]);
            }
        }
        assert(decimal(n)[0] == init[0]);
    }
}

proof fn lemma_value_of_decimal(n: nat)
    ensures
        value(decimal(n)) == n,
    decreases n,
{
    if n < 10 {
        assert(decimal(n).drop_last() =~= Seq::<u8>::empty());
        assert(value(Seq::<u8>::empty()) == 0);
    } else {
        lemma_value_of_decimal(n / 10);
        assert(decimal(n).drop_last() =~= decimal(n / 10));
    }
}

proof fn lemma_value_positive(s: Seq<u8>)
    requires
        s.len() >= 1,
        all_digits(s),
        s[0] != 48,
    ensures
        value(s) >= 1,
    decreases s.len(),
{
    if s.len() == 1 {
        assert(s.drop_last() =~= Seq::<u8>::empty());
        assert(value(Seq::<u8>::empty()) == 0);
        assert(is_digit(s[0]));
    } else {
        let init = s.drop_last();
        assert(init[0] == s[0]);
        assert(all_digits(init)) by {
            assert forall|i: int| 0 <= i < init.len() implies is_digit(#[trigger] init[i]) by {
                assert(init[i] == s[i]);
            }
        }
        lemma_value_positive(init);
    }
}

proof fn lemma_decimal_of_value(s: Seq<u8>)
    requires
        s.len() >= 1,
        all_digits(s),
        s.len() == 1 || s[0] != 48,
    ensures
        decimal(value(s)) == s,
    decreases s.len(),
{
    if s.len() == 1 {
        assert(s.drop_last() =~= Seq::<u8>::empty());
        assert(value(Seq::<u8>::empty()) == 0);
        assert(is_digit(s[0]));
        assert(decimal(value(s)) =~= s);
    } else {
        let init = s.drop_last();
        assert(init[0] == s[0]);
        assert(all_digits(init)) by {
            assert forall|i: int| 0 <= i < init.len() implies is_digit(#[trigger] init[i]) by {
                assert(init[i] == s[i]);
            }
        }
        lemma_value_positive(init);
        lemma_decimal_of_value(init);
        assert(is_digit(s.last()));
        let v = value(s);
        assert(v == value(init) * 10 + (s.last() - 48));
        assert(v / 10 == value(init));
        assert(v % 10 == s.last() - 48);
        assert(decimal(v) =~= s);
    }
}

proof fn lemma_value_prefix(s: Seq<u8>, k: int)
    requires
        0 <= k <= s.len(),
        all_digits(s),
    ensures
        value(s.take(k)) <= value(s),
    decreases s.len() - k,
{
    if k < s.len() {
        let init = s.drop_last();
        assert(all_digits(init)) by {
            assert forall|i: int| 0 <= i < init.len() implies is_digit(#[trigger] init[i]) by {
                assert(init[i] == s[i]);
            }
        }
        assert(is_digit(s.last()));
        lemma_value_prefix(init, k);
        assert(init.take(k) =~= s.take(k));
    } else {
        assert(s.take(k) =~= s);
    }
}

/// Two numbers with one notation are equal.
pub proof fn lemma_decimal_injective(a: nat, b: nat)
    requires
        decimal(a) == decimal(b),
    ensures
        a == b,
{
    lemma_value_of_decimal(a);
    lemma_value_of_decimal(b);
}

/// Whether the decimal notation of `n` stands in `text` from `start` to `end`,
/// and the digits end there.
pub open spec fn is_number_at(text: Seq<u8>, start: int, n: nat, end: int) -> bool {
    &&& 0 <= start <= end <= text.len()
    &&& text.subrange(start, end) == decimal(n)
    &&& (end == text.len() || !is_digit(text[end]))
}

/// At one position of a text at most one number stands, and it ends at one place.
pub proof fn lemma_number_at_unique(text: Seq<u8>, start: int, n1: nat, end1: int, n2: nat, end2: int)
    requires
        is_number_at(text, start, n1, end1),
        is_number_at(text, start, n2, end2),
    ensures
        n1 == n2,
        end1 == end2,
{
    lemma_decimal_shape(n1);
    lemma_decimal_shape(n2);
    if end1 < end2 {
        assert(decimal(n2)[end1 - start] == text.subrange(start, end2)[end1 - start]);
        assert(is_digit(decimal(n2)[end1 - start]));
    } else if end2 < end1 {
        assert(decimal(n1)[end2 - start] == text.subrange(start, end1)[end2 - start]);
        assert(is_digit(decimal(n1)[end2 - start]));
    }
    lemma_decimal_injective(n1, n2);
}

/// Appends the decimal notation of `n` to `out`.
pub fn write_decimal(out: &mut Vec<u8>, n: u64)
    ensures
        final(out)@ == old(out)@ + decimal(n as nat),
    decreases n,
{
    if n >= 10 {
        write_decimal(out, n / 10);
    }
    out.push(48 + (n % 10) as u8);
    assert(out@ =~= old(out)@ + decimal(n as nat));
}

/// Reads the number whose decimal notation starts at `start` and ends where the
/// digits end.
///
/// Returns the number and the position after its last digit. Returns `None`
/// exactly when the run of digits at `start` is the notation of no 64-bit
/// number: it is empty, has a leading zero, or denotes a number that is too
/// large.
pub fn read_decimal(text: &[u8], start: usize) -> (r: Option<(u64, usize)>)
    ensures
        match r {
            Some((n, end)) => is_number_at(text@, start as int, n as nat, end as int),
            None => forall|n: u64, end: int| !is_number_at(text@, start as int, n as nat, end),
        },
{
    let len = text.len();
    if start >= len || !(48 <= text[start] && text[start] <= 57) {
        proof {
            assert forall|n: u64, end: int| !is_number_at(text@, start as int, n as nat, end) by {
                lemma_decimal_shape(n as nat);
                if is_number_at(text@, start as int, n as nat, end) {
                    assert(text@.subrange(start as int, end)[0] == text@[start as int]);
                    assert(is_digit(decimal(n as nat)[0]));
                }
            }
        }
        return None;
    }
    let mut end: usize = start + 1;
    while end < len && 48 <= text[end] && text[end] <= 57
        invariant
            len == text@.len(),
            start < end <= len,
            forall|i: int| start <= i < end ==> is_digit(#[trigger] text@[i]),
        decreases len - end,
    {
        end = end + 1;
    }
    let ghost run = text@.subrange(start as int, end as int);
    proof {
        assert(all_digits(run)) by {
            assert forall|i: int| 0 <= i < run.len() implies is_digit(#[trigger] run[i]) by {
                assert(run[i] == text@[start + i]);
            }
        }
        // Any notation that starts here ends where the digits end.
        assert forall|n: u64, e: int| is_number_at(text@, start as int, n as nat, e) implies e == end
            && decimal(n as nat) == run by {
            lemma_decimal_shape(n as nat);
            let d = decimal(n as nat);
            if e < end {
                assert(is_digit(text@[e]));
            } else if e > end {
                assert(d[end - start] == text@.subrange(start as int, e)[end - start]);
                assert(is_digit(d[end - start]));
            }
        }
    }
    if end - start > 1 && text[start] == 48 {
        proof {
            assert forall|n: u64, e: int| !is_number_at(text@, start as int, n as nat, e) by {
                lemma_decimal_shape(n as nat);
                if is_number_at(text@, start as int, n as nat, e) {
                    assert(run[0] == text@[start as int]);
                }
            }
        }
        return None;
    }
    let mut v: u64 = 0;
    let mut i: usize = start;
    proof {
        assert(text@.subrange(start as int, start as int) =~= Seq::<u8>::empty());
    }
    while i < end
        invariant
            len == text@.len(),
            start <= i <= end <= len,
            run == text@.subrange(start as int, end as int),
            all_digits(run),
            v == value(text@.subrange(start as int, i as int)),
            forall|n: u64, e: int| is_number_at(text@, start as int, n as nat, e) ==> e == end
                && decimal(n as nat) == run,
        decreases end - i,
    {
        assert(is_digit(run[i - start]));
        assert(run[i - start] == text@[i as int]);
        let d: u64 = (text[i] - 48) as u64;
        proof {
            let next = text@.subrange(start as int, i + 1);
            assert(next.drop_last() =~= text@.subrange(start as int, i as int));
            assert(next.last() == text@[i as int]);
            assert(value(next) == v * 10 + d);
            assert(run.take(i + 1 - start) =~= next);
            lemma_value_prefix(run, i + 1 - start);
        }
        if v > (u64::MAX - d) / 10 {
            proof {
                assert(value(run) > u64::MAX);
                assert forall|n: u64, e: int| !is_number_at(text@, start as int, n as nat, e) by {
                    lemma_value_of_decimal(n as nat);
                }
            }
            return None;
        }
        v = v * 10 + d;
        i = i + 1;
    }
    proof {
        lemma_decimal_of_value(run);
    }
    Some((v, end))
}

} // verus!
