//! Colours as `rrggbb` text, and bytes as lower-case hex.

use vstd::prelude::*;
use crate::text::{chars_of, push_char};

verus! {

/// A colour argument that is not `rrggbb`. The text the message quotes (the argument
/// after its leading `#` characters) begins at character `start` of the argument.
pub struct ColourError {
    pub start: usize,
}

/// Number of `#` characters at the start of `s`.
pub open spec fn leading_hashes(s: Seq<char>) -> nat
    decreases s.len(),
{
    if s.len() > 0 && s[0] == '#' {
        1 + leading_hashes(s.skip(1))
    } else {
        0
    }
}

/// Value of a hexadecimal digit of either case.
pub open spec fn hex_digit(c: char) -> Option<int> {
    if '0' <= c <= '9' {
        Some(c as int - 48)
    } else if 'a' <= c <= 'f' {
        Some(c as int - 87)
    } else if 'A' <= c <= 'F' {
        Some(c as int - 55)
    } else {
        None
    }
}

/// Value of a run of hexadecimal digits.
pub open spec fn hex_value(s: Seq<char>) -> int
    decreases s.len(),
{
    if s.len() == 0 {
        0
    } else {
        hex_value(s.drop_last()) * 16 + hex_digit(s.last()).unwrap()
    }
}

/// The hex digits of a colour argument, when it is one: after the leading `#`s,
/// exactly six hex digits `rrggbb` (either case, no sign).
pub open spec fn colour_digits(s: Seq<char>) -> Option<Seq<char>> {
    let t = s.skip(leading_hashes(s) as int);
    if t.len() == 6 && (forall|i: int| 0 <= i < t.len() ==> (#[trigger] hex_digit(t[i])) is Some) {
        Some(t)
    } else {
        None
    }
}

proof fn lemma_hashes_prefix(s: Seq<char>, i: int)
    requires
        0 <= i <= s.len(),
        forall|j: int| 0 <= j < i ==> s[j] == '#',
    ensures
        leading_hashes(s) == i + leading_hashes(s.skip(i)),
    decreases i,
{
    if i > 0 {
        lemma_hashes_prefix(s.skip(1), i - 1);
        assert(s.skip(1).skip(i - 1) =~= s.skip(i));
    } else {
        assert(s.skip(0) =~= s);
    }
}

spec fn pow16(n: nat) -> int
    decreases n,
{
    if n == 0 {
        1
    } else {
        16 * pow16((n - 1) as nat)
    }
}

proof fn lemma_pow16_mono(a: nat, b: nat)
    requires
        a <= b,
    ensures
        0 < pow16(a) <= pow16(b),
    decreases b,
{
    if b > a {
        lemma_pow16_mono(a, (b - 1) as nat);
    } else if a > 0 {
        lemma_pow16_mono((a - 1) as nat, (a - 1) as nat);
    }
}

proof fn lemma_hex_bound(s: Seq<char>)
    requires
        forall|i: int| 0 <= i < s.len() ==> (#[trigger] hex_digit(s[i])) is Some,
    ensures
        0 <= hex_value(s) < pow16(s.len()),
    decreases s.len(),
{
    if s.len() > 0 {
        assert(hex_digit(s[s.len() - 1]) is Some);
        lemma_hex_bound(s.drop_last());
        let p = pow16((s.len() - 1) as nat);
        let h = hex_value(s.drop_last());
        let d = hex_digit(s.last()).unwrap();
        assert(h * 16 + d < p * 16) by (nonlinear_arith)
            requires
                0 <= h < p,
                0 <= d < 16,
        ;
    }
}

fn hex_digit_exec(c: char) -> (r: Option<u32>)
    ensures
        match r {
            Some(v) => hex_digit(c) == Some(v as int),
            None => hex_digit(c) is None,
        },
{
    if '0' <= c && c <= '9' {
        Some(c as u32 - 48)
    } else if 'a' <= c && c <= 'f' {
        Some(c as u32 - 87)
    } else if 'A' <= c && c <= 'F' {
        Some(c as u32 - 55)
    } else {
        None
    }
}

/// Parses a colour given as `rrggbb` hex (leading `#`s ignored) into its red, green
/// and blue bytes.
pub fn parse_hex(c: &str) -> (r: Result<[u8; 3], ColourError>)
    ensures
        match r {
            Ok(rgb) => colour_digits(c@) is Some && ({
                let v = hex_value(colour_digits(c@).unwrap());
                &&& rgb[0] as int == v / 65536
                &&& rgb[1] as int == (v / 256) % 256
                &&& rgb[2] as int == v % 256
            }),
            Err(e) => colour_digits(c@) is None && e.start == leading_hashes(c@),
        },
{
    let s = chars_of(c);
    let n = s.len();
    let mut i: usize = 0;
    while i < n && s[i] == '#'
        invariant
            i <= n,
            n == s@.len(),
            forall|j: int| 0 <= j < i ==> s@[j] == '#',
        decreases n - i,
    {
        i = i + 1;
    }
    proof {
        lemma_hashes_prefix(s@, i as int);
        if i < n {
            assert(leading_hashes(s@.skip(i as int)) == 0);
        } else {
            assert(s@.skip(i as int).len() == 0);
        }
    }
    let start = i;
    let ghost t = s@.skip(start as int);
    if n - start != 6 {
        return Err(ColourError { start });
    }
    let mut v: u32 = 0;
    let mut k = start;
    while k < n
        invariant
            start <= k <= n,
            n == s@.len(),
            n - start == 6,
            t == s@.skip(start as int),
            s@ == c@,
            start == leading_hashes(c@),
            forall|j: int| 0 <= j < k - start ==> (#[trigger] hex_digit(t[j])) is Some,
            v == hex_value(t.take(k - start)),
        decreases n - k,
    {
        let ch = s[k];
        assert(t[k - start] == ch);
        match hex_digit_exec(ch) {
            None => {
                return Err(ColourError { start });
            },
            Some(x) => {
                assert(t.take(k - start + 1).drop_last() =~= t.take(k - start));
                proof {
                    lemma_hex_bound(t.take(k - start));
                    lemma_pow16_mono((k - start) as nat, 5);
                    reveal_with_fuel(pow16, 6);
                }
                v = v * 16 + x;
                k = k + 1;
            },
        }
    }
    assert(t.take(6) =~= t);
    proof {
        lemma_hex_bound(t);
        reveal_with_fuel(pow16, 7);
    }
    Ok([(v / 65536) as u8, ((v / 256) % 256) as u8, (v % 256) as u8])
}

/// The lower-case hexadecimal digit for `v`.
pub open spec fn hex_lower_char(v: int) -> char {
    if v < 10 {
        (48 + v) as char
    } else {
        (87 + v) as char
    }
}

/// Each byte as two lower-case hex digits, as `format!("{b:02x}")` writes it.
pub open spec fn spec_hex_lower(b: Seq<u8>) -> Seq<char>
    decreases b.len(),
{
    if b.len() == 0 {
        Seq::empty()
    } else {
        spec_hex_lower(b.drop_last()) + seq![
            hex_lower_char(b.last() as int / 16),
            hex_lower_char(b.last() as int % 16),
        ]
    }
}

fn hex_lower_char_exec(v: u8) -> (c: char)
    requires
        v < 16,
    ensures
        c == hex_lower_char(v as int),
{
    if v < 10 {
        (48 + v) as char
    } else {
        (87 + v) as char
    }
}

/// The bytes of `b` as lower-case hex, two digits per byte.
pub fn hex_lower(b: &[u8]) -> (s: String)
    ensures
        s@ == spec_hex_lower(b@),
{
    let mut s = String::new();
    let mut i: usize = 0;
    while i < b.len()
        invariant
            i <= b.len(),
            s@ == spec_hex_lower(b@.take(i as int)),
        decreases b.len() - i,
    {
        assert(b@.take(i + 1).drop_last() =~= b@.take(i as int));
        push_char(&mut s, hex_lower_char_exec(b[i] / 16));
        push_char(&mut s, hex_lower_char_exec(b[i] % 16));
        i = i + 1;
    }
    assert(b@.take(b.len() as int) =~= b@);
    s
}

/// Every character `u32::from_str_radix(_, 16)` takes as a digit has its value: `0`-`9`
/// are 0 to 9, and `A`-`F` and `a`-`f` alike are 10 to 15; nothing else is a digit.
pub proof fn lemma_hex_digits(c: char)
    ensures
        '0' <= c <= '9' ==> hex_digit(c) == Some(c as int - '0' as int),
        'A' <= c <= 'F' ==> hex_digit(c) == Some(c as int - 'A' as int + 10),
        'a' <= c <= 'f' ==> hex_digit(c) == Some(c as int - 'a' as int + 10),
        !('0' <= c <= '9' || 'A' <= c <= 'F' || 'a' <= c <= 'f') ==> hex_digit(c) is None,
{
}

/// Six hex digits of either case, after any number of `#`s, always form a colour.
pub proof fn lemma_six_hex_digits_parse(s: Seq<char>, k: int)
    requires
        0 <= k,
        s.len() == k + 6,
        forall|j: int| 0 <= j < k ==> s[j] == '#',
        forall|j: int| k <= j < k + 6 ==> ('0' <= #[trigger] s[j] <= '9' || 'A' <= s[j] <= 'F' || 'a' <= s[j] <= 'f'),
    ensures
        colour_digits(s) == Some(s.skip(k)),
{
    lemma_hashes_prefix(s, k);
    assert(s.skip(k)[0] == s[k]);
    assert(leading_hashes(s.skip(k)) == 0);
    let t = s.skip(k);
    assert forall|i: int| 0 <= i < t.len() implies (#[trigger] hex_digit(t[i])) is Some by {
        assert(t[i] == s[k + i]);
        lemma_hex_digits(t[i]);
    }
}

} // verus!
