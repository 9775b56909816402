//! The time rules of the program's loops and caches.

use vstd::prelude::*;

verus! {

/// A cached scene catalogue is used while it is less than a day old.
pub fn catalog_cache_fresh(age_secs: u64) -> (fresh: bool)
    ensures
        fresh == (age_secs < 86400),
{
    age_secs < 86400
}

/// The screen helper counts as running while its frame file changed less than two
/// seconds ago.
pub fn screen_helper_live(age_secs: u64) -> (live: bool)
    ensures
        live == (age_secs < 2),
{
    age_secs < 2
}

/// Seconds between QR status polls: the server's `pollTime`, 1 when missing, at least 1.
pub fn qr_poll_secs(poll: Option<u64>) -> (secs: u64)
    ensures
        secs == (match poll {
            Some(p) => if p < 1 { 1 } else { p },
            None => 1,
        }),
{
    match poll {
        Some(p) => if p < 1 { 1 } else { p },
        None => 1,
    }
}

/// Milliseconds between DreamView frames so that at most `fps` updates go out per
/// second (`fps` taken as at least 1): the shortest tick with `ms * fps >= 1000`.
pub fn frame_interval_ms(fps: u32) -> (ms: u64)
    ensures
        ({
            let f = if fps < 1 { 1int } else { fps as int };
            &&& ms * f >= 1000
            &&& ms == 0 || (ms - 1) * f < 1000
        }),
{
    let f: u64 = if fps < 1 { 1 } else { fps as u64 };
    let ms = (999 + f) / f;
    assert(ms * f >= 1000 && (ms == 0 || (ms - 1) * f < 1000)) by (nonlinear_arith)
        requires
            f >= 1,
            ms as int == (999 + f) / (f as int),
    ;
    ms
}

} // verus!
