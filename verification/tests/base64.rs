use govee::base64::{b64, b64decode};

#[test]
fn b64_standard_vectors() {
    assert_eq!(b64(b""), "");
    assert_eq!(b64(b"f"), "Zg==");
    assert_eq!(b64(b"fo"), "Zm8=");
    assert_eq!(b64(b"foo"), "Zm9v");
    assert_eq!(b64(b"foob"), "Zm9vYg==");
    assert_eq!(b64(b"fooba"), "Zm9vYmE=");
    assert_eq!(b64(b"foobar"), "Zm9vYmFy");
    assert_eq!(b64(&[0xfb, 0xff]), "+/8=");
}

#[test]
fn b64decode_standard_vectors() {
    assert_eq!(b64decode(""), b"");
    assert_eq!(b64decode("Zg=="), b"f");
    assert_eq!(b64decode("Zm8="), b"fo");
    assert_eq!(b64decode("Zm9vYmFy"), b"foobar");
}

#[test]
fn b64decode_skips_whitespace_padding_and_junk() {
    assert_eq!(b64decode(" Zm9v\nYm\tFy\r\n"), b"foobar");
    assert_eq!(b64decode("Zm9v*Ym!Fy=="), b"foobar");
    assert_eq!(b64decode("Zg"), b"f");
    assert_eq!(b64decode("Z"), b"");
    assert_eq!(b64decode("é"), b"");
}

#[test]
fn b64decode_accepts_url_safe_alphabet() {
    assert_eq!(b64decode("-_8"), vec![0xfb, 0xff]);
    assert_eq!(b64decode("+/8="), vec![0xfb, 0xff]);
}

#[test]
fn b64_roundtrip() {
    let samples: Vec<Vec<u8>> = vec![
        vec![],
        vec![0],
        vec![255, 254],
        (0..=255).collect(),
        b"{\"exp\":1700000000}".to_vec(),
    ];
    for s in samples {
        assert_eq!(b64decode(&b64(&s)), s);
    }
}
