//! Small decisions of the LAN side: the UDP port a message goes to and the brightness
//! levels taken from the user.

use vstd::prelude::*;
use crate::parse::{parse_u32, spec_parse_u32};
use crate::text::{chars_of, is_word, spec_trim, string_of, trim};

verus! {

/// The UDP port for a message to `ip`: 4001 for the discovery multicast group
/// `239.255.255.250`, 4003 for a device.
pub fn lan_port(ip: &str) -> (port: u16)
    ensures
        port == (if ip@ == "239.255.255.250"@ { 4001u16 } else { 4003u16 }),
{
    let cs = chars_of(ip);
    if is_word(cs.as_slice(), "239.255.255.250") {
        4001
    } else {
        4003
    }
}

/// A brightness percentage clamped to 1..=100.
pub open spec fn clamp_percent(v: int) -> int {
    if v < 1 { 1 } else if v > 100 { 100 } else { v }
}

/// `v` clamped to the brightness range 1..=100.
pub fn brightness_percent(v: u32) -> (r: u32)
    ensures
        r == clamp_percent(v as int),
{
    if v < 1 {
        1
    } else if v > 100 {
        100
    } else {
        v
    }
}

/// The brightness a line of standard input sets: the trimmed line read as a `u32` and
/// clamped to 1..=100; `None` when it is not a number.
pub fn parse_brightness(line: &str) -> (r: Option<u32>)
    ensures
        r == (match spec_parse_u32(spec_trim(line@)) {
            Some(v) => Some(clamp_percent(v as int) as u32),
            None => None,
        }),
{
    let t = trim(line);
    match parse_u32(t.as_str()) {
        Some(v) => Some(brightness_percent(v)),
        None => None,
    }
}

/// Number of `\r` and `\n` characters at the end of `s`.
pub open spec fn line_end_len(s: Seq<char>) -> nat
    decreases s.len(),
{
    if s.len() > 0 && (s.last() == '\r' || s.last() == '\n') {
        1 + line_end_len(s.drop_last())
    } else {
        0
    }
}

/// `s` without the `\r` and `\n` characters at its end.
pub fn strip_line_end(s: &str) -> (r: String)
    ensures
        r@ == s@.take(s@.len() - line_end_len(s@)),
{
    let cs = chars_of(s);
    let mut e = cs.len();
    assert(cs@.take(e as int) =~= cs@);
    while e > 0 && (cs[e - 1] == '\r' || cs[e - 1] == '\n')
        invariant
            e <= cs@.len(),
            line_end_len(cs@) == (cs@.len() - e) + line_end_len(cs@.take(e as int)),
        decreases e,
    {
        assert(cs@.take(e as int).drop_last() =~= cs@.take(e - 1));
        e = e - 1;
    }
    proof {
        if e > 0 {
            assert(cs@.take(e as int).last() == cs@[e - 1]);
        }
        assert(cs@.take(e as int) =~= cs@.subrange(0, e as int));
    }
    string_of(cs.as_slice(), 0, e)
}

} // verus!
