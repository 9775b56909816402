use govee::packet::{ble_packet, razer_colors, razer_packet};

fn xor(p: &[u8]) -> u8 {
    p.iter().fold(0, |a, b| a ^ b)
}

#[test]
fn razer_enable_packet() {
    assert_eq!(razer_packet(&[0xB1, 0x01]), vec![0xBB, 0x00, 0x01, 0xB1, 0x01, 0x0A]);
}

#[test]
fn razer_disable_packet() {
    assert_eq!(razer_packet(&[0xB1, 0x00]), vec![0xBB, 0x00, 0x01, 0xB1, 0x00, 0x0B]);
}

#[test]
fn razer_length_byte_counts_args_only() {
    let p = razer_packet(&[0xB0, 1, 2, 3, 4]);
    assert_eq!(p[2], 4);
    assert_eq!(p.len(), 3 + 5 + 1);
    assert_eq!(xor(&p), 0);
}

#[test]
fn razer_single_byte_body() {
    assert_eq!(razer_packet(&[0x42]), vec![0xBB, 0x00, 0x00, 0x42, 0xBB ^ 0x42]);
}

#[test]
fn razer_colors_frame() {
    let p = razer_colors(&[[255, 0, 0], [0, 255, 0]]);
    assert_eq!(&p[..9], &[0xBB, 0x00, 0x08, 0xB0, 0x01, 0x02, 255, 0, 0]);
    assert_eq!(&p[9..12], &[0, 255, 0]);
    assert_eq!(p.len(), 13);
    assert_eq!(xor(&p), 0);
}

#[test]
fn razer_colors_empty() {
    let p = razer_colors(&[]);
    assert_eq!(p, vec![0xBB, 0x00, 0x02, 0xB0, 0x01, 0x00, 0xBB ^ 0x02 ^ 0xB0 ^ 0x01]);
}

#[test]
fn razer_colors_count_wraps() {
    let colors = vec![[1u8, 2, 3]; 300];
    let p = razer_colors(&colors);
    assert_eq!(p[5], (300 % 256) as u8);
    assert_eq!(xor(&p), 0);
}

#[test]
fn ble_packet_pads_short_payload() {
    let p = ble_packet(&[0x33, 0x05, 0x04, 0x01, 0x00]);
    assert_eq!(p.len(), 20);
    assert_eq!(&p[..5], &[0x33, 0x05, 0x04, 0x01, 0x00]);
    assert!(p[5..19].iter().all(|b| *b == 0));
    assert_eq!(p[19], 0x33 ^ 0x05 ^ 0x04 ^ 0x01);
    assert_eq!(xor(&p), 0);
}

#[test]
fn ble_packet_cuts_long_payload() {
    let payload: Vec<u8> = (1..=25).collect();
    let p = ble_packet(&payload);
    assert_eq!(p.len(), 20);
    assert_eq!(&p[..19], &payload[..19]);
    assert_eq!(xor(&p), 0);
}

#[test]
fn ble_packet_empty_payload() {
    assert_eq!(ble_packet(&[]), vec![0u8; 20]);
}
