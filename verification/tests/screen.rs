use govee::screen::{area_rect, band_rects, geometry, parse_frame};

#[test]
fn geometry_percent_rect() {
    assert_eq!(geometry("50x20+25+0", 1000, 500), Some((250, 750, 0, 100)));
}

#[test]
fn geometry_clamps_corner_and_size() {
    assert_eq!(geometry("0x0+100+100", 10, 10), Some((9, 10, 9, 10)));
    assert_eq!(geometry("200x200+50+50", 10, 10), Some((5, 10, 5, 10)));
}

#[test]
fn geometry_rejects_other_text() {
    assert_eq!(geometry("all", 100, 100), None);
    assert_eq!(geometry("50x20+25", 100, 100), None);
    assert_eq!(geometry("50x20+25+0+1", 100, 100), None);
    assert_eq!(geometry("50x20++0", 100, 100), None);
    assert_eq!(geometry("", 100, 100), None);
    assert_eq!(geometry("5ax20+25+0", 100, 100), None);
}

#[test]
fn area_rect_named_areas() {
    let (w, h, ew, eh) = (100, 50, 30, 20);
    assert_eq!(area_rect("left", w, h, ew, eh), (0, 30, 0, 50));
    assert_eq!(area_rect("right", w, h, ew, eh), (70, 100, 0, 50));
    assert_eq!(area_rect("top", w, h, ew, eh), (0, 100, 0, 20));
    assert_eq!(area_rect("bottom", w, h, ew, eh), (0, 100, 30, 50));
    assert_eq!(area_rect("topleft", w, h, ew, eh), (0, 30, 0, 20));
    assert_eq!(area_rect("topright", w, h, ew, eh), (70, 100, 0, 20));
    assert_eq!(area_rect("bottomleft", w, h, ew, eh), (0, 30, 30, 50));
    assert_eq!(area_rect("bottomright", w, h, ew, eh), (70, 100, 30, 50));
    assert_eq!(area_rect("center", w, h, ew, eh), (35, 65, 15, 35));
}

#[test]
fn area_rect_geometry_and_fallback() {
    assert_eq!(area_rect("10x10+0+0", 100, 50, 30, 20), (0, 10, 0, 5));
    assert_eq!(area_rect("all", 100, 50, 30, 20), (0, 100, 0, 50));
    assert_eq!(area_rect("Left", 100, 50, 30, 20), (0, 100, 0, 50));
}

#[test]
fn bands_horizontal() {
    assert_eq!(band_rects((0, 100, 0, 10), 3), vec![(0, 33, 0, 10), (33, 66, 0, 10), (66, 100, 0, 10)]);
}

#[test]
fn bands_vertical_and_zero_count() {
    assert_eq!(band_rects((0, 10, 0, 90), 0), vec![(0, 10, 0, 90)]);
    assert_eq!(band_rects((0, 10, 0, 90), 2), vec![(0, 10, 0, 45), (0, 10, 45, 90)]);
}

#[test]
fn bands_tile_side() {
    let b = band_rects((5, 12, 0, 3), 4);
    assert_eq!(b.first().unwrap().0, 5);
    assert_eq!(b.last().unwrap().1, 12);
    for w in b.windows(2) {
        assert_eq!(w[0].1, w[1].0);
    }
}

fn frame(w: u32, h: u32, seq: u64, px: &[u8]) -> Vec<u8> {
    let mut b = b"GVSC".to_vec();
    b.extend_from_slice(&w.to_le_bytes());
    b.extend_from_slice(&h.to_le_bytes());
    b.extend_from_slice(&w.to_le_bytes());
    b.extend_from_slice(&h.to_le_bytes());
    b.extend_from_slice(&seq.to_le_bytes());
    b.extend_from_slice(px);
    b
}

#[test]
fn parse_frame_reads_header_and_pixels() {
    let px = [1u8, 2, 3, 0, 4, 5, 6, 0];
    let b = frame(2, 1, 0x0102_0304_0506_0708, &px);
    assert_eq!(parse_frame(&b), Some((2, 1, 0x0102_0304_0506_0708, px.to_vec())));
}

#[test]
fn parse_frame_rejects_short_or_foreign() {
    let px = [1u8, 2, 3, 0];
    assert_eq!(parse_frame(&frame(2, 1, 7, &px)), None);
    let mut b = frame(1, 1, 7, &px);
    b[0] = b'X';
    assert_eq!(parse_frame(&b), None);
    assert_eq!(parse_frame(b"GVSC"), None);
    assert_eq!(parse_frame(&frame(0, 0, 9, &[])), Some((0, 0, 9, vec![])));
}
