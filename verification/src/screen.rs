//! DreamView geometry: the frames the screen helper writes, the screen areas a light
//! can follow, and their split into one band per light segment.

use vstd::prelude::*;
use crate::parse::{parse_u32, spec_parse_u32, split, split_chars, string_views};
use crate::text::{chars_of, is_word};

verus! {

/// A pixel rectangle `(x0, x1, y0, y1)`, end-exclusive.
pub type Rect = (u32, u32, u32, u32);

/// The four numbers of a `WxH+X+Y` geometry, when the text is four `u32`s separated by
/// `x` or `+`.
pub open spec fn geometry_numbers(g: Seq<char>) -> Option<Seq<u32>> {
    let parts = split_chars(g, seq!['x', '+']);
    if parts.len() == 4 && (forall|i: int| 0 <= i < 4 ==> (#[trigger] spec_parse_u32(parts[i])) is Some) {
        Some(Seq::new(4, |i: int| spec_parse_u32(parts[i]).unwrap()))
    } else {
        None
    }
}

/// `p` percent (at most 100) of `full`, rounded down.
pub open spec fn pct(p: int, full: int) -> int {
    full * (if p < 100 { p } else { 100 }) / 100
}

/// The smaller of two integers.
pub open spec fn min_int(a: int, b: int) -> int {
    if a < b { a } else { b }
}

/// The larger of two integers.
pub open spec fn max_int(a: int, b: int) -> int {
    if a < b { b } else { a }
}

/// The arithmetic of a geometry on a `w` x `h` screen stays within `u32`, and the
/// screen is not empty.
pub open spec fn geometry_fits(v: Seq<u32>, w: int, h: int) -> bool {
    let x0 = min_int(pct(v[2] as int, w), w - 1);
    let y0 = min_int(pct(v[3] as int, h), h - 1);
    &&& w > 0 && h > 0
    &&& w * min_int(v[0] as int, 100) <= u32::MAX
    &&& h * min_int(v[1] as int, 100) <= u32::MAX
    &&& w * min_int(v[2] as int, 100) <= u32::MAX
    &&& h * min_int(v[3] as int, 100) <= u32::MAX
    &&& x0 + max_int(pct(v[0] as int, w), 1) <= u32::MAX
    &&& y0 + max_int(pct(v[1] as int, h), 1) <= u32::MAX
}

/// The rectangle a `WxH+X+Y` geometry (all in percent of the screen) selects: the
/// corner is kept inside the screen, the size is at least one pixel and is cut at the
/// screen's edge.
pub open spec fn spec_geometry(g: Seq<char>, w: int, h: int) -> Option<Rect> {
    match geometry_numbers(g) {
        None => None,
        Some(v) => {
            let x0 = min_int(pct(v[2] as int, w), w - 1);
            let y0 = min_int(pct(v[3] as int, h), h - 1);
            Some((
                x0 as u32,
                min_int(x0 + max_int(pct(v[0] as int, w), 1), w) as u32,
                y0 as u32,
                min_int(y0 + max_int(pct(v[1] as int, h), 1), h) as u32,
            ))
        },
    }
}

fn pct_exec(p: u32, full: u32) -> (r: u32)
    requires
        full * min_int(p as int, 100) <= u32::MAX,
    ensures
        r == pct(p as int, full as int),
{
    let q = if p < 100 { p } else { 100 };
    full * q / 100
}

/// The four numbers of a `WxH+X+Y` geometry (see [`geometry_numbers`]).
pub fn parse_geometry(g: &str) -> (r: Option<Vec<u32>>)
    ensures
        match r {
            Some(v) => geometry_numbers(g@) == Some(v@),
            None => geometry_numbers(g@) is None,
        },
{
    let cs = chars_of(g);
    let seps: [char; 2] = ['x', '+'];
    let parts = split(cs.as_slice(), &seps);
    assert(seps@ =~= seq!['x', '+']);
    if parts.len() != 4 {
        return None;
    }
    let mut v: Vec<u32> = Vec::new();
    let mut i: usize = 0;
    while i < 4
        invariant
            i <= 4,
            parts@.len() == 4,
            string_views(parts@) == split_chars(g@, seq!['x', '+']),
            v@.len() == i,
            forall|j: int| 0 <= j < i ==> spec_parse_u32(#[trigger] string_views(parts@)[j]) == Some(v@[j]),
        decreases 4 - i,
    {
        match parse_u32(parts[i].as_str()) {
            None => {
                assert(spec_parse_u32(string_views(parts@)[i as int]) is None);
                return None;
            },
            Some(x) => {
                v.push(x);
            },
        }
        i = i + 1;
    }
    let ghost nums = geometry_numbers(g@);
    assert(nums is Some);
    assert(nums.unwrap() =~= v@);
    Some(v)
}

/// Whether the geometry numbers `v` can be applied to a `w` x `h` screen (see
/// [`geometry_fits`]).
pub fn geometry_fits_exec(v: &Vec<u32>, w: u32, h: u32) -> (r: bool)
    requires
        v@.len() == 4,
    ensures
        r == geometry_fits(v@, w as int, h as int),
{
    if w == 0 || h == 0 {
        return false;
    }
    let m0: u64 = if v[0] < 100 { v[0] as u64 } else { 100 };
    let m1: u64 = if v[1] < 100 { v[1] as u64 } else { 100 };
    let m2: u64 = if v[2] < 100 { v[2] as u64 } else { 100 };
    let m3: u64 = if v[3] < 100 { v[3] as u64 } else { 100 };
    let (w64, h64) = (w as u64, h as u64);
    assert(w64 * m0 <= 429496729500 && h64 * m1 <= 429496729500 && w64 * m2 <= 429496729500 && h64
        * m3 <= 429496729500) by (nonlinear_arith)
        requires
            w64 <= 4294967295 && h64 <= 4294967295 && m0 <= 100 && m1 <= 100 && m2 <= 100 && m3 <= 100,
    ;
    let max = 4294967295u64;
    if w64 * m0 > max || h64 * m1 > max || w64 * m2 > max || h64 * m3 > max {
        return false;
    }
    let x0 = {
        let p = w64 * m2 / 100;
        if p < w64 - 1 { p } else { w64 - 1 }
    };
    let y0 = {
        let p = h64 * m3 / 100;
        if p < h64 - 1 { p } else { h64 - 1 }
    };
    let pw = {
        let p = w64 * m0 / 100;
        if p > 1 { p } else { 1 }
    };
    let ph = {
        let p = h64 * m1 / 100;
        if p > 1 { p } else { 1 }
    };
    x0 + pw <= max && y0 + ph <= max
}

/// The rectangle of a `WxH+X+Y` geometry given in percent of a `w` x `h` screen, or
/// `None` when the text is not four numbers separated by `x` or `+`.
pub fn geometry(g: &str, w: u32, h: u32) -> (r: Option<Rect>)
    requires
        geometry_numbers(g@) is Some ==> geometry_fits(geometry_numbers(g@).unwrap(), w as int, h as int),
    ensures
        r == spec_geometry(g@, w as int, h as int),
{
    let v = match parse_geometry(g) {
        Some(v) => v,
        None => {
            return None;
        },
    };
    let (gw, gh, gx, gy) = (v[0], v[1], v[2], v[3]);
    let px = pct_exec(gx, w);
    let x0 = if px < w - 1 { px } else { w - 1 };
    let py = pct_exec(gy, h);
    let y0 = if py < h - 1 { py } else { h - 1 };
    let pw = pct_exec(gw, w);
    let ph = pct_exec(gh, h);
    let xe = x0 + if pw > 1 { pw } else { 1 };
    let ye = y0 + if ph > 1 { ph } else { 1 };
    Some((x0, if xe < w { xe } else { w }, y0, if ye < h { ye } else { h }))
}

/// Whether the arithmetic for `area` stays within `u32`: edges no thicker than the
/// screen where they are subtracted from it, the centre sums within range, and for a
/// geometry the conditions of [`geometry`].
pub open spec fn area_rect_fits(a: Seq<char>, w: int, h: int, ew: int, eh: int) -> bool {
    if a == "left"@ {
        true
    } else if a == "right"@ {
        ew <= w
    } else if a == "top"@ {
        true
    } else if a == "bottom"@ {
        eh <= h
    } else if a == "topleft"@ {
        true
    } else if a == "topright"@ {
        ew <= w
    } else if a == "bottomleft"@ {
        eh <= h
    } else if a == "bottomright"@ {
        ew <= w && eh <= h
    } else if a == "center"@ {
        ew <= w && eh <= h && w + ew <= u32::MAX && h + eh <= u32::MAX
    } else {
        geometry_numbers(a) is Some ==> geometry_fits(geometry_numbers(a).unwrap(), w, h)
    }
}

/// The rectangle of a named screen area on a `w` x `h` screen whose side areas are
/// `ew` pixels wide and `eh` pixels high: a side, a corner, the centre, a `WxH+X+Y`
/// geometry, or else the whole screen.
pub open spec fn spec_area_rect(a: Seq<char>, w: u32, h: u32, ew: u32, eh: u32) -> Rect {
    if a == "left"@ {
        (0, ew, 0, h)
    } else if a == "right"@ {
        ((w - ew) as u32, w, 0, h)
    } else if a == "top"@ {
        (0, w, 0, eh)
    } else if a == "bottom"@ {
        (0, w, (h - eh) as u32, h)
    } else if a == "topleft"@ {
        (0, ew, 0, eh)
    } else if a == "topright"@ {
        ((w - ew) as u32, w, 0, eh)
    } else if a == "bottomleft"@ {
        (0, ew, (h - eh) as u32, h)
    } else if a == "bottomright"@ {
        ((w - ew) as u32, w, (h - eh) as u32, h)
    } else if a == "center"@ {
        (((w - ew) / 2) as u32, ((w + ew) / 2) as u32, ((h - eh) / 2) as u32, ((h + eh) / 2) as u32)
    } else {
        match spec_geometry(a, w as int, h as int) {
            Some(r) => r,
            None => (0, w, 0, h),
        }
    }
}

/// The rectangle of screen area `area` (see [`spec_area_rect`]); `ew` and `eh` are the
/// thickness of the side areas in pixels.
pub fn area_rect(area: &str, w: u32, h: u32, ew: u32, eh: u32) -> (r: Rect)
    requires
        area_rect_fits(area@, w as int, h as int, ew as int, eh as int),
    ensures
        r == spec_area_rect(area@, w, h, ew, eh),
{
    let a = chars_of(area);
    let a = a.as_slice();
    if is_word(a, "left") {
        (0, ew, 0, h)
    } else if is_word(a, "right") {
        (w - ew, w, 0, h)
    } else if is_word(a, "top") {
        (0, w, 0, eh)
    } else if is_word(a, "bottom") {
        (0, w, h - eh, h)
    } else if is_word(a, "topleft") {
        (0, ew, 0, eh)
    } else if is_word(a, "topright") {
        (w - ew, w, 0, eh)
    } else if is_word(a, "bottomleft") {
        (0, ew, h - eh, h)
    } else if is_word(a, "bottomright") {
        (w - ew, w, h - eh, h)
    } else if is_word(a, "center") {
        ((w - ew) / 2, (w + ew) / 2, (h - eh) / 2, (h + eh) / 2)
    } else {
        match geometry(area, w, h) {
            Some(r) => r,
            None => (0, w, 0, h),
        }
    }
}

/// Whether bands run along `x`: the rectangle is at least as wide as it is high.
pub open spec fn is_horizontal(r: Rect) -> bool {
    r.1 - r.0 >= r.3 - r.2
}

/// Offset of the `i`-th of `count` equal cuts of a side `span` long.
pub open spec fn cut(span: int, i: int, count: int) -> int {
    span * i / count
}

/// Band `i` of `r` cut into `count` bands across its longer side.
pub open spec fn band(r: Rect, count: int, i: int) -> Rect {
    if is_horizontal(r) {
        let span = r.1 - r.0;
        ((r.0 + cut(span, i, count)) as u32, (r.0 + cut(span, i + 1, count)) as u32, r.2, r.3)
    } else {
        let span = r.3 - r.2;
        (r.0, r.1, (r.2 + cut(span, i, count)) as u32, (r.2 + cut(span, i + 1, count)) as u32)
    }
}

/// Number of bands for `n` segments: at least one.
pub open spec fn band_count(n: u32) -> int {
    if n < 1 { 1 } else { n as int }
}

/// Whether cutting `r` into `count` bands stays within `u32` arithmetic.
pub open spec fn bands_fit(r: Rect, count: int) -> bool {
    &&& r.0 <= r.1
    &&& r.2 <= r.3
    &&& (if is_horizontal(r) { r.1 - r.0 } else { r.3 - r.2 }) * count <= u32::MAX
}

/// The rectangle `r` cut into `max(n, 1)` equal bands across its longer side, in
/// order.
pub fn band_rects(r: Rect, n: u32) -> (out: Vec<Rect>)
    requires
        bands_fit(r, band_count(n)),
    ensures
        out@.len() == band_count(n),
        forall|i: int| 0 <= i < out@.len() ==> #[trigger] out@[i] == band(r, band_count(n), i),
{
    let (x0, x1, y0, y1) = r;
    let horizontal = x1 - x0 >= y1 - y0;
    let count: u32 = if n < 1 { 1 } else { n };
    let (a, b) = if horizontal { (x0, x1) } else { (y0, y1) };
    let span = b - a;
    let mut out: Vec<Rect> = Vec::new();
    let mut i: u32 = 0;
    while i < count
        invariant
            i <= count,
            count == band_count(n),
            bands_fit(r, count as int),
            r == (x0, x1, y0, y1),
            horizontal == is_horizontal(r),
            a == (if horizontal { x0 } else { y0 }),
            b == (if horizontal { x1 } else { y1 }),
            span == b - a,
            out@.len() == i,
            forall|k: int| 0 <= k < i ==> #[trigger] out@[k] == band(r, count as int, k),
        decreases count - i,
    {
        assert(span * (i + 1) <= span * count) by (nonlinear_arith)
            requires
                i + 1 <= count,
                span >= 0,
        ;
        assert(span * i <= span * (i + 1)) by (nonlinear_arith)
            requires
                span >= 0,
        ;
        assert(span * (i + 1) / (count as int) <= span) by (nonlinear_arith)
            requires
                span * (i + 1) <= span * count,
                count >= 1,
                span >= 0,
        ;
        assert(span * i / (count as int) <= span * (i + 1) / (count as int)) by (nonlinear_arith)
            requires
                span * i <= span * (i + 1),
                count >= 1,
                span >= 0,
        ;
        let s = a + span * i / count;
        let e = a + span * (i + 1) / count;
        if horizontal {
            out.push((s, e, y0, y1));
        } else {
            out.push((x0, x1, s, e));
        }
        i = i + 1;
    }
    out
}

/// The bands of a rectangle tile its longer side: the first starts where the side
/// starts, each ends where the next starts and never before it starts, and the last
/// ends where the side ends.
pub proof fn lemma_bands_tile(r: Rect, count: int)
    requires
        count >= 1,
        bands_fit(r, count),
    ensures
        ({
            let (a, b) = if is_horizontal(r) { (r.0 as int, r.1 as int) } else { (r.2 as int, r.3 as int) };
            let start = |i: int| if is_horizontal(r) { band(r, count, i).0 as int } else { band(r, count, i).2 as int };
            let end = |i: int| if is_horizontal(r) { band(r, count, i).1 as int } else { band(r, count, i).3 as int };
            &&& start(0) == a
            &&& end(count - 1) == b
            &&& forall|i: int| 0 <= i < count ==> start(i) <= #[trigger] end(i)
            &&& forall|i: int| 0 <= i < count - 1 ==> #[trigger] end(i) == start(i + 1)
        }),
{
    let span: int = if is_horizontal(r) { r.1 - r.0 } else { r.3 - r.2 };
    assert(span >= 0);
    assert(cut(span, 0, count) == 0) by (nonlinear_arith)
        requires
            count >= 1,
    ;
    assert(cut(span, count, count) == span) by (nonlinear_arith)
        requires
            count >= 1,
    ;
    assert forall|i: int| 0 <= i < count implies 0 <= #[trigger] cut(span, i, count) <= cut(span, i + 1, count)
        <= span by {
        assert(0 <= span * i <= span * (i + 1) <= span * count) by (nonlinear_arith)
            requires
                0 <= i < count,
                span >= 0,
        ;
        assert(0 <= span * i / count <= span * (i + 1) / count <= span * count / count)
            by (nonlinear_arith)
            requires
                0 <= span * i <= span * (i + 1) <= span * count,
                count >= 1,
        ;
        assert(span * count / count == span) by (nonlinear_arith)
            requires
                count >= 1,
        ;
    }
}

/// Little-endian `u32` at byte `i` of `b`.
pub open spec fn le_u32(b: Seq<u8>, i: int) -> int {
    b[i] + 256 * b[i + 1] + 65536 * b[i + 2] + 16777216 * b[i + 3]
}

/// Little-endian `u64` at byte `i` of `b`.
pub open spec fn le_u64(b: Seq<u8>, i: int) -> int {
    le_u32(b, i) + 4294967296 * le_u32(b, i + 4)
}

/// A frame file begins with the 28-byte header `GVSC`, width, height, two more
/// `u32`s and the frame counter.
pub open spec fn frame_header_ok(b: Seq<u8>) -> bool {
    b.len() >= 28 && b[0] == 71 && b[1] == 86 && b[2] == 83 && b[3] == 67
}

/// Whether the pixel byte count of a frame's header, `width * height * 4`, and the file
/// size it implies stay within `u32` and `usize`.
pub open spec fn frame_size_fits(b: Seq<u8>) -> bool {
    frame_header_ok(b) ==> le_u32(b, 4) * le_u32(b, 8) * 4 <= u32::MAX && 28 + le_u32(b, 4)
        * le_u32(b, 8) * 4 <= usize::MAX
}

/// The frame a screen-helper file holds: `(width, height, counter, pixels)`, the pixels
/// being everything after the header; `None` when the header is missing or the file is
/// shorter than `width * height` BGRx pixels.
pub open spec fn spec_parse_frame(b: Seq<u8>) -> Option<(u32, u32, u64, Seq<u8>)> {
    if frame_header_ok(b) && b.len() >= 28 + le_u32(b, 4) * le_u32(b, 8) * 4 {
        Some((le_u32(b, 4) as u32, le_u32(b, 8) as u32, le_u64(b, 20) as u64, b.skip(28)))
    } else {
        None
    }
}

fn read_le_u32(b: &[u8], i: usize) -> (v: u32)
    requires
        i + 4 <= b@.len(),
    ensures
        v == le_u32(b@, i as int),
{
    b[i] as u32 + 256 * (b[i + 1] as u32) + 65536 * (b[i + 2] as u32) + 16777216 * (b[i + 3] as u32)
}

/// Reads a frame written by the screen helper (see [`spec_parse_frame`]).
pub fn parse_frame(b: &[u8]) -> (r: Option<(u32, u32, u64, Vec<u8>)>)
    requires
        frame_size_fits(b@),
    ensures
        match (r, spec_parse_frame(b@)) {
            (None, None) => true,
            (Some((w, h, seq, px)), Some((sw, sh, sseq, spx))) => w == sw && h == sh && seq == sseq
                && px@ == spx,
            _ => false,
        },
{
    if b.len() < 28 || b[0] != 71 || b[1] != 86 || b[2] != 83 || b[3] != 67 {
        return None;
    }
    let w = read_le_u32(b, 4);
    let h = read_le_u32(b, 8);
    let lo = read_le_u32(b, 20) as u64;
    let hi = read_le_u32(b, 24) as u64;
    let seq: u64 = lo + 4294967296 * hi;
    let need: usize = 28 + (w * h * 4) as usize;
    if b.len() < need {
        return None;
    }
    let mut px: Vec<u8> = Vec::new();
    let mut i: usize = 28;
    while i < b.len()
        invariant
            28 <= i <= b@.len(),
            px@ =~= b@.subrange(28, i as int),
        decreases b.len() - i,
    {
        px.push(b[i]);
        i = i + 1;
    }
    assert(px@ =~= b@.skip(28));
    Some((w, h, seq, px))
}

/// A geometry's rectangle lies on the screen and is at least one pixel wide and high.
pub proof fn lemma_geometry_inside(g: Seq<char>, w: int, h: int)
    requires
        geometry_numbers(g) is Some,
        geometry_fits(geometry_numbers(g).unwrap(), w, h),
    ensures
        ({
            let r = spec_geometry(g, w, h).unwrap();
            &&& r.0 < r.1 <= w
            &&& r.2 < r.3 <= h
        }),
{
    let v = geometry_numbers(g).unwrap();
    assert(pct(v[2] as int, w) >= 0 && pct(v[0] as int, w) >= 0) by (nonlinear_arith)
        requires
            w > 0,
    ;
    assert(pct(v[3] as int, h) >= 0 && pct(v[1] as int, h) >= 0) by (nonlinear_arith)
        requires
            h > 0,
    ;
}

/// The rectangle of any screen area lies on the screen, given side areas no thicker
/// than the screen.
pub proof fn lemma_area_rect_inside(a: Seq<char>, w: u32, h: u32, ew: u32, eh: u32)
    requires
        area_rect_fits(a, w as int, h as int, ew as int, eh as int),
        ew <= w,
        eh <= h,
    ensures
        ({
            let r = spec_area_rect(a, w, h, ew, eh);
            &&& r.0 <= r.1 <= w
            &&& r.2 <= r.3 <= h
        }),
{
    if !(a == "left"@ || a == "right"@ || a == "top"@ || a == "bottom"@ || a == "topleft"@ || a
        == "topright"@ || a == "bottomleft"@ || a == "bottomright"@ || a == "center"@) {
        if geometry_numbers(a) is Some {
            lemma_geometry_inside(a, w as int, h as int);
        }
    }
}

/// A parsed frame holds at least `width * height` BGRx pixels.
pub proof fn lemma_frame_has_pixels(b: Seq<u8>)
    requires
        spec_parse_frame(b) is Some,
    ensures
        ({
            let (w, h, _, px) = spec_parse_frame(b).unwrap();
            px.len() >= w * h * 4
        }),
{
}

/// Whether [`area_rect`] can be applied to these arguments (see [`area_rect_fits`]).
pub fn area_rect_ok(area: &str, w: u32, h: u32, ew: u32, eh: u32) -> (r: bool)
    ensures
        r == area_rect_fits(area@, w as int, h as int, ew as int, eh as int),
{
    let a = chars_of(area);
    let a = a.as_slice();
    if is_word(a, "left") {
        true
    } else if is_word(a, "right") {
        ew <= w
    } else if is_word(a, "top") {
        true
    } else if is_word(a, "bottom") {
        eh <= h
    } else if is_word(a, "topleft") {
        true
    } else if is_word(a, "topright") {
        ew <= w
    } else if is_word(a, "bottomleft") {
        eh <= h
    } else if is_word(a, "bottomright") {
        ew <= w && eh <= h
    } else if is_word(a, "center") {
        ew <= w && eh <= h && w as u64 + ew as u64 <= 4294967295u64 && h as u64 + eh as u64 <= 4294967295u64
    } else {
        match parse_geometry(area) {
            Some(v) => geometry_fits_exec(&v, w, h),
            None => true,
        }
    }
}

/// Whether [`band_rects`] can cut `r` into bands for `n` segments (see [`bands_fit`]).
pub fn bands_ok(r: Rect, n: u32) -> (ok: bool)
    ensures
        ok == bands_fit(r, band_count(n)),
{
    let (x0, x1, y0, y1) = r;
    if x0 > x1 || y0 > y1 {
        return false;
    }
    let span: u64 = if x1 - x0 >= y1 - y0 { (x1 - x0) as u64 } else { (y1 - y0) as u64 };
    let count: u64 = if n < 1 { 1 } else { n as u64 };
    assert(span * count <= 4294967295 * 4294967295) by (nonlinear_arith)
        requires
            span <= 4294967295 && count <= 4294967295,
    ;
    span * count <= 4294967295u64
}

/// Whether [`parse_frame`] can read `b` (see [`frame_size_fits`]).
pub fn frame_ok(b: &[u8]) -> (ok: bool)
    ensures
        ok == frame_size_fits(b@),
{
    if b.len() < 28 || b[0] != 71 || b[1] != 86 || b[2] != 83 || b[3] != 67 {
        return true;
    }
    let w = read_le_u32(b, 4) as u64;
    let h = read_le_u32(b, 8) as u64;
    assert(w * h <= 4294967295 * 4294967295) by (nonlinear_arith)
        requires
            w <= 4294967295 && h <= 4294967295,
    ;
    let bytes = w * h;
    if bytes > 4294967295u64 / 4 {
        return false;
    }
    let total = 28 + bytes * 4;
    total <= usize::MAX as u64
}

/// Bands cut the longer side: when the rectangle is at least as wide as high, each
/// band spans the full height and band `i` runs from `x0 + w*i/count` to
/// `x0 + w*(i+1)/count` (`w` the width); otherwise each band spans the full width and is
/// cut the same way along `y`.
pub proof fn lemma_band_axis(r: Rect, count: int, i: int)
    requires
        count >= 1,
        0 <= i < count,
        bands_fit(r, count),
    ensures
        r.1 - r.0 >= r.3 - r.2 ==> band(r, count, i).2 == r.2 && band(r, count, i).3 == r.3
            && band(r, count, i).0 == r.0 + (r.1 - r.0) * i / count
            && band(r, count, i).1 == r.0 + (r.1 - r.0) * (i + 1) / count,
        r.1 - r.0 < r.3 - r.2 ==> band(r, count, i).0 == r.0 && band(r, count, i).1 == r.1
            && band(r, count, i).2 == r.2 + (r.3 - r.2) * i / count
            && band(r, count, i).3 == r.2 + (r.3 - r.2) * (i + 1) / count,
{
    let span: int = if r.1 - r.0 >= r.3 - r.2 { r.1 - r.0 } else { r.3 - r.2 };
    assert(0 <= span * i / count <= span * (i + 1) / count <= span) by (nonlinear_arith)
        requires
            0 <= i < count,
            span >= 0,
    ;
}

} // verus!
