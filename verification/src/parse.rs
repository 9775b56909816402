//! Parsing of the short texts the command line takes: decimal numbers, hex colours,
//! and splitting at separator characters.

use vstd::prelude::*;
use crate::text::{chars_of, push_char};

verus! {

/// A decimal digit.
pub open spec fn is_dec_digit(c: char) -> bool {
    '0' <= c <= '9'
}

/// The value of a run of decimal digits (0 for none).
pub open spec fn dec_value(s: Seq<char>) -> int
    decreases s.len(),
{
    if s.len() == 0 {
        0
    } else {
        dec_value(s.drop_last()) * 10 + (s.last() as int - 48)
    }
}

/// The digits of a number after an optional leading `+`.
pub open spec fn unsigned_digits(s: Seq<char>) -> Seq<char> {
    if s.len() > 0 && s[0] == '+' {
        s.skip(1)
    } else {
        s
    }
}

/// What `str::parse::<u32>` gives: an optional `+`, then one or more decimal digits
/// whose value fits in 32 bits.
pub open spec fn spec_parse_u32(s: Seq<char>) -> Option<u32> {
    let d = unsigned_digits(s);
    if d.len() > 0 && (forall|i: int| 0 <= i < d.len() ==> is_dec_digit(#[trigger] d[i]))
        && dec_value(d) <= u32::MAX {
        Some(dec_value(d) as u32)
    } else {
        None
    }
}

/// `s` cut at every character of `seps`, as `str::split` does: `n` separators give
/// `n + 1` pieces, empty ones included.
pub open spec fn split_chars(s: Seq<char>, seps: Seq<char>) -> Seq<Seq<char>>
    decreases s.len(),
{
    if s.len() == 0 {
        seq![Seq::empty()]
    } else {
        let p = split_chars(s.drop_last(), seps);
        if seps.contains(s.last()) {
            p.push(Seq::empty())
        } else {
            p.update(p.len() - 1, p.last().push(s.last()))
        }
    }
}

/// The characters of each string of `v`.
pub open spec fn string_views(v: Seq<String>) -> Seq<Seq<char>> {
    v.map_values(|s: String| s@)
}

pub proof fn lemma_split_nonempty(s: Seq<char>, seps: Seq<char>)
    ensures
        split_chars(s, seps).len() >= 1,
    decreases s.len(),
{
    if s.len() > 0 {
        lemma_split_nonempty(s.drop_last(), seps);
    }
}

proof fn lemma_dec_nonneg(s: Seq<char>)
    requires
        forall|j: int| 0 <= j < s.len() ==> is_dec_digit(#[trigger] s[j]),
    ensures
        dec_value(s) >= 0,
    decreases s.len(),
{
    if s.len() > 0 {
        lemma_dec_nonneg(s.drop_last());
        assert(is_dec_digit(s[s.len() - 1]));
    }
}

/// `s.push(x)` holds `c` exactly when `s` does or `x` is `c`.
pub proof fn lemma_contains_push<A>(s: Seq<A>, x: A, c: A)
    ensures
        s.push(x).contains(c) == (s.contains(c) || x == c),
{
    if s.push(x).contains(c) {
        let j = choose|j: int| 0 <= j < s.push(x).len() && s.push(x)[j] == c;
        if j < s.len() {
            assert(s[j] == c);
        }
    }
    if s.contains(c) {
        let j = choose|j: int| 0 <= j < s.len() && s[j] == c;
        assert(s.push(x)[j] == c);
    }
    if x == c {
        assert(s.push(x)[s.len() as int] == c);
    }
}

proof fn lemma_dec_prefix(s: Seq<char>, i: int)
    requires
        0 <= i <= s.len(),
        forall|j: int| 0 <= j < s.len() ==> is_dec_digit(#[trigger] s[j]),
    ensures
        dec_value(s.take(i)) <= dec_value(s),
    decreases s.len() - i,
{
    if i < s.len() {
        lemma_dec_prefix(s, i + 1);
        assert(s.take(i + 1).drop_last() =~= s.take(i));
        assert(is_dec_digit(s[i]));
        assert(s.take(i + 1).last() == s[i]);
        lemma_dec_nonneg(s.take(i));
    } else {
        assert(s.take(i) =~= s);
    }
}

/// Parses a decimal `u32` from characters as `str::parse::<u32>` does.
pub fn parse_u32_chars(s: &[char]) -> (r: Option<u32>)
    ensures
        r == spec_parse_u32(s@),
{
    let n = s.len();
    let start: usize = if n > 0 && s[0] == '+' { 1 } else { 0 };
    let ghost d = unsigned_digits(s@);
    assert(d =~= s@.skip(start as int));
    if start == n {
        return None;
    }
    let mut v: u64 = 0;
    let mut i = start;
    while i < n
        invariant
            start <= i <= n,
            n == s@.len(),
            d =~= s@.skip(start as int),
            d == unsigned_digits(s@),
            forall|j: int| 0 <= j < i - start ==> is_dec_digit(#[trigger] d[j]),
            v == dec_value(d.take(i - start)),
            v <= u32::MAX,
        decreases n - i,
    {
        let c = s[i];
        assert(d[i - start] == c);
        if !('0' <= c && c <= '9') {
            assert(!is_dec_digit(d[i - start]));
            return None;
        }
        assert(d.take(i - start + 1).drop_last() =~= d.take(i - start));
        let digit = (c as u32 - 48u32) as u64;
        v = v * 10 + digit;
        i = i + 1;
        if v > 4294967295u64 {
            proof {
                if forall|j: int| 0 <= j < d.len() ==> is_dec_digit(#[trigger] d[j]) {
                    lemma_dec_prefix(d, i - start);
                }
            }
            return None;
        }
    }
    assert(d.take(n - start) =~= d);
    Some(v as u32)
}

/// Parses a decimal `u32` as `str::parse::<u32>` does.
pub fn parse_u32(s: &str) -> (r: Option<u32>)
    ensures
        r == spec_parse_u32(s@),
{
    let cs = chars_of(s);
    parse_u32_chars(cs.as_slice())
}

/// Cuts `s` at every character of `seps` (see [`split_chars`]).
pub fn split(s: &[char], seps: &[char]) -> (parts: Vec<String>)
    ensures
        string_views(parts@) == split_chars(s@, seps@),
{
    let mut parts: Vec<String> = Vec::new();
    let mut cur = String::new();
    let mut i: usize = 0;
    while i < s.len()
        invariant
            i <= s.len(),
            string_views(parts@).push(cur@) == split_chars(s@.take(i as int), seps@),
        decreases s.len() - i,
    {
        let c = s[i];
        proof {
            assert(s@.take(i + 1).drop_last() =~= s@.take(i as int));
            lemma_split_nonempty(s@.take(i as int), seps@);
        }
        let mut is_sep = false;
        let mut k: usize = 0;
        while k < seps.len()
            invariant
                k <= seps.len(),
                is_sep == seps@.take(k as int).contains(c),
            decreases seps.len() - k,
        {
            assert(seps@.take(k + 1) =~= seps@.take(k as int).push(seps@[k as int]));
            proof {
                lemma_contains_push(seps@.take(k as int), seps@[k as int], c);
            }
            if seps[k] == c {
                is_sep = true;
            }
            k = k + 1;
        }
        assert(seps@.take(seps.len() as int) =~= seps@);
        let ghost prev_parts = string_views(parts@);
        let ghost prev_cur = cur@;
        if is_sep {
            let done = cur;
            parts.push(done);
            cur = String::new();
            assert(string_views(parts@) =~= prev_parts.push(prev_cur));
        } else {
            push_char(&mut cur, c);
        }
        assert(string_views(parts@).push(cur@) =~= split_chars(s@.take(i + 1), seps@));
        i = i + 1;
    }
    parts.push(cur);
    assert(s@.take(s.len() as int) =~= s@);
    parts
}

} // verus!
