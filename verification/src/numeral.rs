//! Decimal rendering and parsing of `u64` values, used by the mtime
//! cache's line format, together with the round-trip proof that parsing
//! inverts rendering.

use vstd::prelude::*;

verus! {

/// Is `c` a decimal digit?
pub open spec fn is_digit(c: char) -> bool {
    48 <= (c as u32) <= 57
}

/// Numeric value of a digit character.
pub open spec fn digit_val(c: char) -> int {
    (c as u32) - 48
}

/// The digit character for `d` (meaningful for `d < 10`).
pub open spec fn digit_char(d: int) -> char {
    if d == 0 { '0' }
    else if d == 1 { '1' }
    else if d == 2 { '2' }
    else if d == 3 { '3' }
    else if d == 4 { '4' }
    else if d == 5 { '5' }
    else if d == 6 { '6' }
    else if d == 7 { '7' }
    else if d == 8 { '8' }
    else { '9' }
}

/// The canonical decimal rendering of `n`: no leading zeros, except
/// that zero itself is the single digit `0`.
pub open spec fn dec_digits(n: nat) -> Seq<char>
    decreases n,
{
    if n < 10 {
        seq![digit_char(n as int)]
    } else {
        dec_digits(n / 10).push(digit_char((n % 10) as int))
    }
}

/// Every character of `s` is a decimal digit.
pub open spec fn all_digits(s: Seq<char>) -> bool {
    forall|i: int| 0 <= i < s.len() ==> is_digit(s[i])
}

/// The number denoted by a digit sequence, most significant first.
pub open spec fn dec_value(s: Seq<char>) -> nat
    decreases s.len(),
{
    if s.len() == 0 {
        0
    } else {
        (dec_value(s.drop_last()) * 10 + (if is_digit(s.last()) {
            digit_val(s.last())
        } else {
            0
        })) as nat
    }
}

/// What a decimal token parses to: a value only for a nonempty
/// all-digit sequence whose value fits in a `u64`.
pub open spec fn spec_parse_u64(s: Seq<char>) -> Option<u64> {
    if s.len() >= 1 && all_digits(s) && dec_value(s) <= u64::MAX {
        Some(dec_value(s) as u64)
    } else {
        None
    }
}

/// Parsing inverts rendering: the canonical digits of `n` are digits,
/// nonempty, and denote `n`.
pub proof fn lemma_dec_digits_value(n: nat)
    ensures
        dec_digits(n).len() >= 1,
        all_digits(dec_digits(n)),
        dec_value(dec_digits(n)) == n,
    decreases n,
{
    if n < 10 {
        let s = dec_digits(n);
        assert(s.len() == 1);
        assert(is_digit(digit_char(n as int)));
        assert(s.drop_last() =~= Seq::<char>::empty());
        assert(dec_value(s.drop_last()) == 0);
        assert(s.last() == digit_char(n as int));
        assert(digit_val(digit_char(n as int)) == n);
        assert(dec_value(s) == n);
    } else {
        lemma_dec_digits_value(n / 10);
        let p = dec_digits(n / 10);
        let c = digit_char((n % 10) as int);
        let s = p.push(c);
        assert(s.drop_last() =~= p);
        assert(s.last() == c);
        assert(is_digit(c));
        assert(digit_val(c) == n % 10);
        assert(forall|i: int| 0 <= i < s.len() ==> is_digit(s[i])) by {
            assert(forall|i: int| 0 <= i < p.len() ==> is_digit(#[trigger] s[i]));
        }
        assert(dec_value(s) == dec_value(p) * 10 + n % 10);
        assert((n / 10) * 10 + n % 10 == n);
    }
}

/// A prefix never denotes more than the whole sequence.
proof fn lemma_dec_value_prefix(s: Seq<char>, i: int)
    requires
        0 <= i <= s.len(),
    ensures
        dec_value(s.take(i)) <= dec_value(s),
    decreases s.len() - i,
{
    if i < s.len() {
        lemma_dec_value_prefix(s, i + 1);
        let t = s.take(i + 1);
        assert(t.drop_last() =~= s.take(i));
        assert(dec_value(t) == dec_value(s.take(i)) * 10 + (if is_digit(t.last()) {
            digit_val(t.last())
        } else {
            0
        }));
        assert(dec_value(s.take(i)) <= dec_value(t));
    } else {
        assert(s.take(i) =~= s);
    }
}

/// Render `n` in decimal.
pub fn to_dec(n: u64) -> (r: Vec<char>)
    ensures
        r@ == dec_digits(n as nat),
    decreases n,
{
    if n < 10 {
        let c = digit_of(n);
        let mut r: Vec<char> = Vec::new();
        r.push(c);
        proof {
            assert(r@ =~= seq![digit_char(n as int)]);
        }
        r
    } else {
        let mut r = to_dec(n / 10);
        let c = digit_of(n % 10);
        r.push(c);
        r
    }
}

fn digit_of(d: u64) -> (c: char)
    requires
        d < 10,
    ensures
        c == digit_char(d as int),
{
    if d == 0 { '0' }
    else if d == 1 { '1' }
    else if d == 2 { '2' }
    else if d == 3 { '3' }
    else if d == 4 { '4' }
    else if d == 5 { '5' }
    else if d == 6 { '6' }
    else if d == 7 { '7' }
    else if d == 8 { '8' }
    else { '9' }
}

/// Parse `v[lo..hi]` as a decimal `u64`.
pub fn parse_dec(v: &Vec<char>, lo: usize, hi: usize) -> (r: Option<u64>)
    requires
        lo <= hi <= v.len(),
    ensures
        r == spec_parse_u64(v@.subrange(lo as int, hi as int)),
{
    let ghost s = v@.subrange(lo as int, hi as int);
    if lo == hi {
        return None;
    }
    let mut acc: u64 = 0;
    let mut i: usize = lo;
    while i < hi
        invariant
            lo <= i <= hi <= v.len(),
            s == v@.subrange(lo as int, hi as int),
            all_digits(s.take(i - lo)),
            acc as nat == dec_value(s.take(i - lo)),
        decreases hi - i,
    {
        let c = v[i];
        let cv = c as u32;
        proof {
            assert(s[i - lo] == v@[i as int]);
            assert(s.take(i - lo + 1).drop_last() =~= s.take(i - lo));
        }
        if cv < 48 || cv > 57 {
            proof {
                assert(!is_digit(s[i - lo]));
            }
            return None;
        }
        let d: u64 = (cv - 48) as u64;
        if acc > 1844674407370955161u64 || (acc == 1844674407370955161u64 && d > 5) {
            proof {
                let t = s.take(i - lo + 1);
                assert(dec_value(t) == dec_value(s.take(i - lo)) * 10 + digit_val(s[i - lo]));
                assert(dec_value(t) > u64::MAX);
                lemma_dec_value_prefix(s, i - lo + 1);
                assert(dec_value(s) > u64::MAX);
            }
            return None;
        }
        acc = acc * 10 + d;
        i = i + 1;
        proof {
            assert(s.take(i - lo).last() == s[i - lo - 1]);
            assert(acc as nat == dec_value(s.take(i - lo)));
        }
    }
    proof {
        assert(s.take(hi - lo) =~= s);
    }
    Some(acc)
}

} // verus!
