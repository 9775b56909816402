use govee::color::{hex_lower, parse_hex};

#[test]
fn parse_hex_plain() {
    assert_eq!(parse_hex("ff8000").ok(), Some([255, 128, 0]));
    assert_eq!(parse_hex("0000FF").ok(), Some([0, 0, 255]));
    assert_eq!(parse_hex("aBcDeF").ok(), Some([0xab, 0xcd, 0xef]));
}

#[test]
fn parse_hex_strips_hashes() {
    assert_eq!(parse_hex("#00ff00").ok(), Some([0, 255, 0]));
    assert_eq!(parse_hex("##0a0b0c").ok(), Some([10, 11, 12]));
}

#[test]
fn parse_hex_rejects_sign() {
    assert_eq!(parse_hex("+fffff").err().map(|e| e.start), Some(0));
    assert_eq!(parse_hex("#+12345").err().map(|e| e.start), Some(1));
}

#[test]
fn parse_hex_errors() {
    assert_eq!(parse_hex("fff").err().map(|e| e.start), Some(0));
    assert_eq!(parse_hex("gg0000").err().map(|e| e.start), Some(0));
    assert_eq!(parse_hex("-fffff").err().map(|e| e.start), Some(0));
    assert_eq!(parse_hex("+").err().map(|e| e.start), Some(0));
    assert_eq!(parse_hex("").err().map(|e| e.start), Some(0));
    assert_eq!(parse_hex("#12345").err().map(|e| e.start), Some(1));
    assert_eq!(parse_hex("##").err().map(|e| e.start), Some(2));
    assert_eq!(parse_hex("ff00ff00").err().map(|e| e.start), Some(0));
    assert_eq!(parse_hex("ffé0").err().map(|e| e.start), Some(0));
}

#[test]
fn hex_lower_bytes() {
    assert_eq!(hex_lower(&[]), "");
    assert_eq!(hex_lower(&[0, 1, 0xab, 0xff]), "0001abff");
    assert_eq!(hex_lower(b"0123456789abcdef0123456789abcdef").len(), 64);
}
