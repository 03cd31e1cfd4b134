use std::io::Write;

use flate2::write::GzEncoder;
use flate2::Compression;
use velos::tiles::{decompress_tile, tile_payload};

#[test]
fn decompress_passthrough() {
    let raw = b"hello world";
    let result = decompress_tile(raw);
    assert_eq!(result, raw, "Non-gzip data should pass through unchanged");
}

#[test]
fn decompress_gzip() {
    let original = b"test data for compression";
    let mut encoder = GzEncoder::new(Vec::new(), Compression::default());
    encoder.write_all(original).unwrap();
    let compressed = encoder.finish().unwrap();
    let result = decompress_tile(&compressed);
    assert_eq!(result, original);
}

#[test]
fn payload_prefers_decoded_bytes() {
    assert_eq!(tile_payload(b"raw", Some(vec![1, 2, 3])), vec![1, 2, 3]);
    assert_eq!(tile_payload(b"raw", None), b"raw".to_vec());
}
