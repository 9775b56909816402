//! DreamView targets (`ip[:area[:segments]]`) and the per-frame decisions of the
//! screen-to-lights loop: which frames to render and what to send to each light.

use vstd::prelude::*;
use crate::packet::{razer_colors, razer_colors_body, spec_razer_packet};
use crate::parse::{parse_u32_chars, spec_parse_u32, split, split_chars, string_views};
use crate::text::chars_of;

verus! {

/// A target whose segment count is not a number.
pub struct SegmentCountError;

/// A light to drive: its address, the screen area of each of its segments, and
/// whether it is driven per segment (`razer` mode) or with one colour.
pub struct Target {
    pub ip: String,
    pub sides: Vec<String>,
    pub razer: bool,
}

/// The `:`-separated fields of a target.
pub open spec fn target_fields(t: Seq<char>) -> Seq<Seq<char>> {
    split_chars(t, seq![':'])
}

/// The area field of a target, `all` when there is none.
pub open spec fn target_area(t: Seq<char>) -> Seq<char> {
    let f = target_fields(t);
    if f.len() > 1 { f[1] } else { "all"@ }
}

/// The segment count of a target, 0 when there is none, `None` when it is not a `u32`.
pub open spec fn target_segments(t: Seq<char>) -> Option<u32> {
    let f = target_fields(t);
    if f.len() > 2 { spec_parse_u32(f[2]) } else { Some(0) }
}

/// The side of each segment: a comma list gives one side per entry, otherwise the area
/// is repeated once per segment (at least once).
pub open spec fn target_sides(area: Seq<char>, segs: u32) -> Seq<Seq<char>> {
    if area.contains(',') {
        split_chars(area, seq![','])
    } else {
        Seq::new(if segs < 1 { 1 } else { segs as nat }, |i: int| area)
    }
}

/// Parses a target `ip[:area[:segments]]`; see [`target_area`], [`target_segments`] and
/// [`target_sides`]. It is driven per segment when the area is a comma list or a
/// segment count above 0 is given.
pub fn parse_target(t: &str) -> (r: Result<Target, SegmentCountError>)
    ensures
        match r {
            Ok(tg) => {
                let segs = target_segments(t@);
                let area = target_area(t@);
                &&& segs is Some
                &&& tg.ip@ == target_fields(t@)[0]
                &&& string_views(tg.sides@) == target_sides(area, segs.unwrap())
                &&& tg.razer == (area.contains(',') || segs.unwrap() > 0)
            },
            Err(_) => target_segments(t@) is None,
        },
{
    let cs = chars_of(t);
    let colon: [char; 1] = [':'];
    let fields = split(cs.as_slice(), &colon);
    assert(colon@ =~= seq![':']);
    proof {
        crate::parse::lemma_split_nonempty(cs@, seq![':']);
    }
    let ip = fields[0].clone();
    let area: String = if fields.len() > 1 { fields[1].clone() } else { "all".to_owned() };
    let segs: u32 = if fields.len() > 2 {
        let sc = chars_of(fields[2].as_str());
        match parse_u32_chars(sc.as_slice()) {
            Some(v) => v,
            None => {
                return Err(SegmentCountError);
            },
        }
    } else {
        0
    };
    let ac = chars_of(area.as_str());
    let mut has_comma = false;
    let mut i: usize = 0;
    while i < ac.len()
        invariant
            i <= ac@.len(),
            has_comma == ac@.take(i as int).contains(','),
        decreases ac@.len() - i,
    {
        proof {
            assert(ac@.take(i + 1) =~= ac@.take(i as int).push(ac@[i as int]));
            crate::parse::lemma_contains_push(ac@.take(i as int), ac@[i as int], ',');
        }
        if ac[i] == ',' {
            has_comma = true;
        }
        i = i + 1;
    }
    assert(ac@.take(ac@.len() as int) =~= ac@);
    let sides: Vec<String> = if has_comma {
        let comma: [char; 1] = [','];
        assert(comma@ =~= seq![',']);
        split(ac.as_slice(), &comma)
    } else {
        let count: u32 = if segs < 1 { 1 } else { segs };
        let mut v: Vec<String> = Vec::new();
        let mut k: u32 = 0;
        while k < count
            invariant
                k <= count,
                v@.len() == k,
                forall|j: int| 0 <= j < k ==> (#[trigger] v@[j])@ == area@,
            decreases count - k,
        {
            v.push(area.clone());
            k = k + 1;
        }
        assert(string_views(v@) =~= target_sides(area@, segs));
        v
    };
    Ok(Target { ip, sides, razer: has_comma || segs > 0 })
}

/// What to send to one light for a frame.
pub enum Update {
    /// One colour for the whole light (`colorwc`).
    Colour([u8; 3]),
    /// A razer frame with one colour per segment.
    Razer(Vec<u8>),
}

/// The state of the DreamView loop: the last frame counter and brightness rendered,
/// and the colours last sent to each target.
pub struct Dreamview {
    pub last_seq: u64,
    pub last_bri: u32,
    pub last: Vec<Vec<[u8; 3]>>,
}

/// `c` in reverse order when `reverse` holds.
pub open spec fn oriented(c: Seq<[u8; 3]>, reverse: bool) -> Seq<[u8; 3]> {
    if reverse { c.reverse() } else { c }
}

/// Whether two colours are equal.
pub fn rgb_eq(a: [u8; 3], b: [u8; 3]) -> (r: bool)
    ensures
        r == (a == b),
{
    if a[0] == b[0] && a[1] == b[1] && a[2] == b[2] {
        assert(a =~= b);
        true
    } else {
        false
    }
}

/// A frame is rendered unless both its counter and the brightness are the last ones.
pub open spec fn frame_is_new(last_seq: u64, last_bri: u32, seq: u64, bri: u32) -> bool {
    !(seq == last_seq && bri == last_bri)
}

/// A light gets an update unless its colours in strip order are the ones last sent.
pub open spec fn update_needed(colors: Seq<[u8; 3]>, reverse: bool, last: Seq<[u8; 3]>) -> bool {
    oriented(colors, reverse) != last
}

/// Each frame and each colour list goes out once: after a frame is rendered the same
/// counter and brightness render nothing, and after colours are sent to a light the
/// same colours send nothing.
pub proof fn lemma_sent_once(seq: u64, bri: u32, colors: Seq<[u8; 3]>, reverse: bool)
    ensures
        !frame_is_new(seq, bri, seq, bri),
        !update_needed(colors, reverse, oriented(colors, reverse)),
{
}

impl Dreamview {
    /// The loop's state before the first frame, for `n` targets: nothing rendered and
    /// nothing sent.
    pub fn new(n: usize) -> (d: Dreamview)
        ensures
            d.last_seq == 0,
            d.last_bri == 0,
            d.last@.len() == n,
            forall|i: int| 0 <= i < n ==> (#[trigger] d.last@[i])@.len() == 0,
    {
        let mut last: Vec<Vec<[u8; 3]>> = Vec::new();
        let mut i: usize = 0;
        while i < n
            invariant
                i <= n,
                last@.len() == i,
                forall|k: int| 0 <= k < i ==> (#[trigger] last@[k])@.len() == 0,
            decreases n - i,
        {
            last.push(Vec::new());
            i = i + 1;
        }
        Dreamview { last_seq: 0, last_bri: 0, last }
    }

    /// Whether a frame with counter `seq` at brightness `bri` is to be rendered: it is
    /// unless both equal the last rendered ones (a static screen is still re-sent when
    /// only the brightness moved). A rendered frame becomes the last one.
    pub fn begin_frame(&mut self, seq: u64, bri: u32) -> (render: bool)
        ensures
            render == frame_is_new(old(self).last_seq, old(self).last_bri, seq, bri),
            final(self).last_seq == seq,
            final(self).last_bri == bri,
            final(self).last == old(self).last,
    {
        if seq == self.last_seq && bri == self.last_bri {
            return false;
        }
        self.last_seq = seq;
        self.last_bri = bri;
        true
    }

    /// The update for target `i` given the colours of its segments: the colours in
    /// strip order (reversed for `reverse`), nothing when they equal what was last sent,
    /// else a razer frame for a razer target or the first colour for another; the sent
    /// colours become the last ones.
    pub fn target_update(&mut self, i: usize, colors: Vec<[u8; 3]>, reverse: bool, razer: bool) -> (u: Option<Update>)
        requires
            i < old(self).last@.len(),
            razer || colors@.len() > 0 || old(self).last@[i as int]@.len() == 0,
        ensures
            ({
                let c = oriented(colors@, reverse);
                &&& final(self).last_seq == old(self).last_seq
                &&& final(self).last_bri == old(self).last_bri
                &&& final(self).last@.len() == old(self).last@.len()
                &&& forall|k: int| 0 <= k < old(self).last@.len() && k != i ==> #[trigger] final(self).last@[k] == old(self).last@[k]
                &&& if !update_needed(colors@, reverse, old(self).last@[i as int]@) {
                    &&& u is None
                    &&& final(self).last@[i as int] == old(self).last@[i as int]
                } else {
                    &&& final(self).last@[i as int]@ == c
                    &&& match u {
                        Some(Update::Razer(p)) => razer && p@ == spec_razer_packet(razer_colors_body(c)),
                        Some(Update::Colour(x)) => !razer && x == c[0],
                        None => false,
                    }
                }
            }),
    {
        let n = colors.len();
        let mut c: Vec<[u8; 3]> = Vec::new();
        let mut k: usize = 0;
        while k < n
            invariant
                k <= n,
                n == colors@.len(),
                c@.len() == k,
                forall|j: int| 0 <= j < k ==> #[trigger] c@[j] == oriented(colors@, reverse)[j],
            decreases n - k,
        {
            if reverse {
                c.push(colors[n - 1 - k]);
            } else {
                c.push(colors[k]);
            }
            k = k + 1;
        }
        assert(c@ =~= oriented(colors@, reverse));
        let same = {
            let prev = &self.last[i];
            if prev.len() != c.len() {
                false
            } else {
                let mut eq = true;
                let mut j: usize = 0;
                while j < c.len()
                    invariant
                        j <= c@.len(),
                        prev@.len() == c@.len(),
                        eq == (forall|q: int| 0 <= q < j ==> prev@[q] == c@[q]),
                    decreases c@.len() - j,
                {
                    if !rgb_eq(prev[j], c[j]) {
                        eq = false;
                    }
                    j = j + 1;
                }
                if eq {
                    assert(prev@ =~= c@);
                }
                eq
            }
        };
        if same {
            return None;
        }
        let upd = if razer {
            Update::Razer(razer_colors(c.as_slice()))
        } else {
            Update::Colour(c[0])
        };
        self.last.set(i, c);
        Some(upd)
    }
}

} // verus!
