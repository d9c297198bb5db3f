use camera_bridge::codec::{decode, encode};
use camera_bridge::errors::CaptureError;
use camera_bridge::format::{Descriptor, PixelFormat};

fn rgb_descriptor() -> Descriptor {
    Descriptor { width: 640, height: 480, pixfmt: PixelFormat::Rgb(24) }
}

#[test]
fn encode_rgb_exact_text() {
    let v = encode(&rgb_descriptor()).unwrap();
    assert_eq!(v, b"{\"width\":640,\"height\":480,\"pixfmt\":{\"Rgb\":24}}".to_vec());
}

#[test]
fn encode_jpeg_exact_text() {
    let d = Descriptor { width: 1, height: 2, pixfmt: PixelFormat::Jpeg };
    let v = encode(&d).unwrap();
    assert_eq!(v, b"{\"width\":1,\"height\":2,\"pixfmt\":\"Jpeg\"}".to_vec());
}

#[test]
fn encode_custom_exact_text() {
    let d = Descriptor {
        width: 320,
        height: 200,
        pixfmt: PixelFormat::Custom(b"yuyv".to_vec()),
    };
    let v = encode(&d).unwrap();
    assert_eq!(v, b"{\"width\":320,\"height\":200,\"pixfmt\":{\"Custom\":\"yuyv\"}}".to_vec());
}

#[test]
fn round_trip_every_variant() {
    let formats = vec![
        PixelFormat::Custom(b"nv12".to_vec()),
        PixelFormat::Depth(16),
        PixelFormat::Gray(8),
        PixelFormat::Bgr(24),
        PixelFormat::Rgb(32),
        PixelFormat::Jpeg,
    ];
    for pixfmt in formats {
        let d = Descriptor { width: 1920, height: 1080, pixfmt };
        let v = encode(&d).unwrap();
        assert_eq!(decode(&v), Some(d));
    }
}

#[test]
fn round_trip_extreme_dimensions() {
    for (w, h) in [(0u32, 0u32), (u32::MAX, u32::MAX), (1, 4294967294)] {
        let d = Descriptor { width: w, height: h, pixfmt: PixelFormat::Gray(10) };
        let v = encode(&d).unwrap();
        assert_eq!(decode(&v), Some(d));
    }
}

#[test]
fn round_trip_empty_custom_name() {
    let d = Descriptor { width: 7, height: 9, pixfmt: PixelFormat::Custom(Vec::new()) };
    let v = encode(&d).unwrap();
    assert_eq!(v, b"{\"width\":7,\"height\":9,\"pixfmt\":{\"Custom\":\"\"}}".to_vec());
    assert_eq!(decode(&v), Some(d));
}

#[test]
fn encode_rejects_interior_null_in_name() {
    let d = Descriptor {
        width: 10,
        height: 10,
        pixfmt: PixelFormat::Custom(b"bad\0name".to_vec()),
    };
    assert!(matches!(encode(&d), Err(CaptureError::Encoding)));
}

#[test]
fn encode_escapes_quote_and_backslash() {
    let d = Descriptor { width: 1, height: 1, pixfmt: PixelFormat::Custom(b"a\"b\\c".to_vec()) };
    let v = encode(&d).unwrap();
    assert_eq!(
        v,
        b"{\"width\":1,\"height\":1,\"pixfmt\":{\"Custom\":\"a\\\"b\\\\c\"}}".to_vec()
    );
    assert_eq!(decode(&v), Some(d));
}

#[test]
fn encode_escapes_control_bytes() {
    let d = Descriptor { width: 1, height: 1, pixfmt: PixelFormat::Custom(b"a\nb\x1f".to_vec()) };
    let v = encode(&d).unwrap();
    assert_eq!(
        v,
        b"{\"width\":1,\"height\":1,\"pixfmt\":{\"Custom\":\"a\\u000ab\\u001f\"}}".to_vec()
    );
    assert_eq!(decode(&v), Some(d));
}

#[test]
fn round_trip_names_with_every_escapable_byte() {
    let mut name: Vec<u8> = Vec::new();
    for b in 1u8..=255 {
        name.push(b);
    }
    let d = Descriptor { width: 9, height: 9, pixfmt: PixelFormat::Custom(name) };
    let v = encode(&d).unwrap();
    assert_eq!(decode(&v), Some(d));
}

#[test]
fn decode_rejects_bad_name_escapes() {
    let cases: Vec<Vec<u8>> = vec![
        // unknown escape
        b"{\"width\":1,\"height\":1,\"pixfmt\":{\"Custom\":\"a\\qb\"}}".to_vec(),
        // NUL escape, which no representable name produces
        b"{\"width\":1,\"height\":1,\"pixfmt\":{\"Custom\":\"\\u0000\"}}".to_vec(),
        // escape for a byte that stands verbatim
        b"{\"width\":1,\"height\":1,\"pixfmt\":{\"Custom\":\"\\u0041\"}}".to_vec(),
        // uppercase hexadecimal digits
        b"{\"width\":1,\"height\":1,\"pixfmt\":{\"Custom\":\"\\u001F\"}}".to_vec(),
        // raw control byte
        b"{\"width\":1,\"height\":1,\"pixfmt\":{\"Custom\":\"a\nb\"}}".to_vec(),
        // unterminated name
        b"{\"width\":1,\"height\":1,\"pixfmt\":{\"Custom\":\"ab}}".to_vec(),
    ];
    for v in cases {
        assert_eq!(decode(&v), None);
    }
}

#[test]
fn decode_rejects_unknown_tag() {
    let v = b"{\"width\":1,\"height\":2,\"pixfmt\":{\"Yuv\":24}}".to_vec();
    assert_eq!(decode(&v), None);
}

#[test]
fn decode_rejects_malformed_text() {
    let cases: Vec<Vec<u8>> = vec![
        b"".to_vec(),
        b"{}".to_vec(),
        b"{\"width\":1,\"height\":2,\"pixfmt\":\"Jpeg\"".to_vec(),
        b"{\"width\":1,\"height\":2,\"pixfmt\":\"Jpeg\"}}".to_vec(),
        b"{\"width\":01,\"height\":2,\"pixfmt\":\"Jpeg\"}".to_vec(),
        b"{\"width\":1,\"height\":,\"pixfmt\":\"Jpeg\"}".to_vec(),
        b"{\"height\":2,\"width\":1,\"pixfmt\":\"Jpeg\"}".to_vec(),
        b"{\"width\":1,\"height\":2,\"pixfmt\":\"jpeg\"}".to_vec(),
        b"{\"width\": 1,\"height\":2,\"pixfmt\":\"Jpeg\"}".to_vec(),
    ];
    for v in cases {
        assert_eq!(decode(&v), None);
    }
}

#[test]
fn decode_rejects_number_beyond_u32() {
    let v = b"{\"width\":4294967296,\"height\":2,\"pixfmt\":\"Jpeg\"}".to_vec();
    assert_eq!(decode(&v), None);
    let v = b"{\"width\":1,\"height\":2,\"pixfmt\":{\"Depth\":99999999999}}".to_vec();
    assert_eq!(decode(&v), None);
}

#[test]
fn decode_accepts_boundary_number() {
    let v = b"{\"width\":4294967295,\"height\":0,\"pixfmt\":{\"Depth\":4294967295}}".to_vec();
    let d = decode(&v).unwrap();
    assert_eq!(d.width, u32::MAX);
    assert_eq!(d.height, 0);
    assert_eq!(d.pixfmt, PixelFormat::Depth(u32::MAX));
}

#[test]
fn decoded_custom_name_is_verbatim() {
    let v = b"{\"width\":8,\"height\":8,\"pixfmt\":{\"Custom\":\"My Format v2\"}}".to_vec();
    let d = decode(&v).unwrap();
    assert_eq!(d.pixfmt, PixelFormat::Custom(b"My Format v2".to_vec()));
}
