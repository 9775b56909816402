//! Animated effects: their names, their default palettes, and the random source of
//! the fire effect. The colour arithmetic of each frame is done in floating point
//! outside this library.

use vstd::prelude::*;
use crate::text::{chars_of, is_word};

verus! {

/// The animated effects.
pub enum EffectKind {
    Rainbow,
    Wave,
    Breathe,
    Chase,
    Fire,
}

/// The effect an effect name selects, if any.
pub open spec fn spec_effect_kind(name: Seq<char>) -> Option<EffectKind> {
    if name == "rainbow"@ {
        Some(EffectKind::Rainbow)
    } else if name == "wave"@ {
        Some(EffectKind::Wave)
    } else if name == "breathe"@ {
        Some(EffectKind::Breathe)
    } else if name == "chase"@ {
        Some(EffectKind::Chase)
    } else if name == "fire"@ {
        Some(EffectKind::Fire)
    } else {
        None
    }
}

/// The effect named `name`: `rainbow`, `wave`, `breathe`, `chase` or `fire`.
pub fn effect_kind(name: &str) -> (k: Option<EffectKind>)
    ensures
        k == spec_effect_kind(name@),
{
    let n = chars_of(name);
    let n = n.as_slice();
    if is_word(n, "rainbow") {
        Some(EffectKind::Rainbow)
    } else if is_word(n, "wave") {
        Some(EffectKind::Wave)
    } else if is_word(n, "breathe") {
        Some(EffectKind::Breathe)
    } else if is_word(n, "chase") {
        Some(EffectKind::Chase)
    } else if is_word(n, "fire") {
        Some(EffectKind::Fire)
    } else {
        None
    }
}

/// The palette an effect uses when none is given: two fire colours for `fire`, white
/// for `breathe` and `chase`, red, green and blue otherwise.
pub open spec fn default_palette(name: Seq<char>) -> Seq<[u8; 3]> {
    if name == "fire"@ {
        seq![[255u8, 30u8, 0u8], [255u8, 140u8, 0u8]]
    } else if name == "breathe"@ || name == "chase"@ {
        seq![[255u8, 255u8, 255u8]]
    } else {
        seq![[255u8, 0u8, 0u8], [0u8, 255u8, 0u8], [0u8, 0u8, 255u8]]
    }
}

/// The palette of effect `name`: the given colours, or the default ones when none are
/// given.
pub fn effect_palette(name: &str, given: &[[u8; 3]]) -> (p: Vec<[u8; 3]>)
    ensures
        p@ == (if given@.len() == 0 { default_palette(name@) } else { given@ }),
{
    if given.len() > 0 {
        let mut p: Vec<[u8; 3]> = Vec::new();
        let mut i: usize = 0;
        while i < given.len()
            invariant
                i <= given@.len(),
                p@ == given@.take(i as int),
            decreases given@.len() - i,
        {
            p.push(given[i]);
            assert(given@.take(i + 1) =~= given@.take(i as int).push(given@[i as int]));
            i = i + 1;
        }
        assert(given@.take(given@.len() as int) =~= given@);
        return p;
    }
    let n = chars_of(name);
    let n = n.as_slice();
    let mut p: Vec<[u8; 3]> = Vec::new();
    if is_word(n, "fire") {
        p.push([255, 30, 0]);
        p.push([255, 140, 0]);
    } else if is_word(n, "breathe") || is_word(n, "chase") {
        p.push([255, 255, 255]);
    } else {
        p.push([255, 0, 0]);
        p.push([0, 255, 0]);
        p.push([0, 0, 255]);
    }
    assert(p@ =~= default_palette(name@));
    p
}

/// One step of the 13/17/5 xorshift generator on 32 bits.
pub open spec fn spec_xorshift(x: u32) -> u32 {
    let a = x ^ (x << 13u32);
    let b = a ^ (a >> 17u32);
    b ^ (b << 5u32)
}

/// The next state of the xorshift generator that drives the fire effect's flicker.
pub fn xorshift(x: u32) -> (r: u32)
    ensures
        r == spec_xorshift(x),
{
    let mut r = x;
    r ^= r << 13u32;
    r ^= r >> 17u32;
    r ^= r << 5u32;
    r
}

/// The xorshift step never maps a non-zero state to zero, so the flicker never
/// freezes.
pub proof fn lemma_xorshift_nonzero(x: u32)
    requires
        x != 0,
    ensures
        spec_xorshift(x) != 0,
{
    let a = x ^ (x << 13u32);
    let b = a ^ (a >> 17u32);
    assert(x != 0 ==> x ^ (x << 13u32) != 0) by (bit_vector);
    assert(a != 0 ==> a ^ (a >> 17u32) != 0) by (bit_vector);
    assert(b != 0 ==> b ^ (b << 5u32) != 0) by (bit_vector);
}

} // verus!
