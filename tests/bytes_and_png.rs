use image_converter::image_converter::png::{Png, PngError};
use image_converter::vec_extension::{VecExt, VecExtU8};

fn record(tag: &[u8], payload: &[u8]) -> Vec<u8> {
    let mut out = (payload.len() as u32).to_be_bytes().to_vec();
    out.extend_from_slice(tag);
    out.extend_from_slice(payload);
    out.extend_from_slice(&[0, 0, 0, 0]);
    out
}

fn signature() -> Vec<u8> {
    vec![137, 80, 78, 71, 13, 10, 26, 10]
}

#[test]
fn byte_conversions() {
    assert_eq!(vec![7u8].to_u8(), 7);
    assert_eq!(vec![1u8, 2].to_u16(), 0x0102);
    assert_eq!(vec![0u8, 0, 1, 0].to_u32(), 256);
    assert_eq!(vec![0xFFu8, 0, 0, 1].to_u32(), 0xFF00_0001);
}

#[test]
fn element_comparison_and_text() {
    assert!(vec![1u8, 2, 3].verify_elements(&vec![1, 2, 3]));
    assert!(!vec![1u8, 2, 3].verify_elements(&vec![1, 2]));
    assert!(!vec![1u8, 2, 3].verify_elements(&vec![1, 2, 4]));
    assert_eq!(vec![137u8, 80, 0, 10].to_string(), "137 80 0 10");
    assert_eq!(Vec::<u8>::new().to_string(), "");
}

#[test]
fn new_decoder_has_no_header() {
    assert!(Png::new().image_header.is_none());
}

#[test]
fn bad_signature_is_rejected() {
    let png = Png::new();
    match png.verify_header(&vec![1, 2, 3]) {
        Err(PngError::InvalidPngHeader { expected, found }) => {
            assert_eq!(expected, "137 80 78 71 13 10 26 10");
            assert_eq!(found, "1 2 3");
        }
        other => panic!("unexpected {:?}", other),
    }
    assert!(png.verify_header(&signature()).is_ok());
}

#[test]
fn header_record_is_read() {
    let mut bytes = signature();
    bytes.extend(record(b"IHDR", &[0, 0, 1, 0, 0, 0, 0, 2, 8, 6, 0, 0, 1]));
    bytes.extend(record(b"tEXt", b"note"));
    bytes.extend(record(b"IEND", &[]));
    let mut png = Png::new();
    png.decode(&bytes).unwrap();
    let header = png.image_header.unwrap();
    assert_eq!(header.width, 256);
    assert_eq!(header.height, 2);
    assert_eq!(header.bit_depth, 8);
    assert_eq!(header.colour_type, 6);
    assert_eq!(header.interlace_method, 1);
}

#[test]
fn short_header_record_is_rejected() {
    let mut bytes = signature();
    bytes.extend(record(b"IHDR", &[0, 0, 1]));
    let mut png = Png::new();
    match png.decode(&bytes) {
        Err(PngError::InvalidChunkLength { expected, found }) => {
            assert_eq!(expected, 13);
            assert_eq!(found, 3);
        }
        other => panic!("unexpected {:?}", other),
    }
}

#[test]
fn truncated_stream_is_rejected() {
    let mut bytes = signature();
    bytes.extend_from_slice(&[0, 0, 0, 5, b'I']);
    let mut png = Png::new();
    assert!(matches!(png.decode(&bytes), Err(PngError::EndOfFileReached)));
}
