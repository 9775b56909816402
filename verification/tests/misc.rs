use govee::timing::{catalog_cache_fresh, frame_interval_ms, qr_poll_secs, screen_helper_live};
use govee::effect::{effect_kind, effect_palette, xorshift, EffectKind};
use govee::lan::{brightness_percent, lan_port, parse_brightness, strip_line_end};
use govee::parse::parse_u32;
use govee::text::{decimal, trim};

#[test]
fn effect_names() {
    assert!(matches!(effect_kind("rainbow"), Some(EffectKind::Rainbow)));
    assert!(matches!(effect_kind("wave"), Some(EffectKind::Wave)));
    assert!(matches!(effect_kind("breathe"), Some(EffectKind::Breathe)));
    assert!(matches!(effect_kind("chase"), Some(EffectKind::Chase)));
    assert!(matches!(effect_kind("fire"), Some(EffectKind::Fire)));
    assert!(effect_kind("Fire").is_none());
}

#[test]
fn effect_palettes() {
    assert_eq!(effect_palette("fire", &[]), vec![[255, 30, 0], [255, 140, 0]]);
    assert_eq!(effect_palette("chase", &[]), vec![[255, 255, 255]]);
    assert_eq!(effect_palette("breathe", &[]), vec![[255, 255, 255]]);
    assert_eq!(effect_palette("wave", &[]), vec![[255, 0, 0], [0, 255, 0], [0, 0, 255]]);
    assert_eq!(effect_palette("fire", &[[1, 2, 3]]), vec![[1, 2, 3]]);
}

#[test]
fn xorshift_steps() {
    let mut x: u32 = 0x9E37_79B9;
    let mut y = x;
    for _ in 0..5 {
        y ^= y << 13;
        y ^= y >> 17;
        y ^= y << 5;
        x = xorshift(x);
        assert_eq!(x, y);
        assert_ne!(x, 0);
    }
    assert_eq!(xorshift(1), 270369);
    assert_eq!(xorshift(0), 0);
}

#[test]
fn ports() {
    assert_eq!(lan_port("239.255.255.250"), 4001);
    assert_eq!(lan_port("192.168.1.100"), 4003);
}

#[test]
fn brightness() {
    assert_eq!(brightness_percent(0), 1);
    assert_eq!(brightness_percent(50), 50);
    assert_eq!(brightness_percent(250), 100);
    assert_eq!(parse_brightness("  42\n"), Some(42));
    assert_eq!(parse_brightness("0"), Some(1));
    assert_eq!(parse_brightness("+300"), Some(100));
    assert_eq!(parse_brightness("x"), None);
    assert_eq!(parse_brightness(""), None);
}

#[test]
fn numbers_like_str_parse() {
    assert_eq!(parse_u32("15"), Some(15));
    assert_eq!(parse_u32("+7"), Some(7));
    assert_eq!(parse_u32("4294967295"), Some(u32::MAX));
    assert_eq!(parse_u32("4294967296"), None);
    assert_eq!(parse_u32("99999999999999999999"), None);
    assert_eq!(parse_u32("-1"), None);
    assert_eq!(parse_u32("+"), None);
    assert_eq!(parse_u32(""), None);
    assert_eq!(parse_u32("1 "), None);
}

#[test]
fn text_helpers() {
    assert_eq!(strip_line_end("secret\r\n"), "secret");
    assert_eq!(strip_line_end("a\n\n\r"), "a");
    assert_eq!(strip_line_end("a b"), "a b");
    assert_eq!(trim(" \u{3000}x y\t\n"), "x y");
    assert_eq!(trim("   "), "");
    assert_eq!(decimal(0), "0");
    assert_eq!(decimal(1_700_000_000_123), "1700000000123");
}

#[test]
fn timing_rules() {
    assert!(catalog_cache_fresh(86399));
    assert!(!catalog_cache_fresh(86400));
    assert!(screen_helper_live(1));
    assert!(!screen_helper_live(2));
    assert_eq!(qr_poll_secs(None), 1);
    assert_eq!(qr_poll_secs(Some(0)), 1);
    assert_eq!(qr_poll_secs(Some(3)), 3);
    assert_eq!(frame_interval_ms(15), 67);
    assert_eq!(frame_interval_ms(0), 1000);
    assert_eq!(frame_interval_ms(1), 1000);
    assert_eq!(frame_interval_ms(1000), 1);
    assert_eq!(frame_interval_ms(2000), 1);
}
