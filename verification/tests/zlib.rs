use monokakido::resource::decompress;
use monokakido::Error;

/// A complete zlib-framed block holding the stored (uncompressed) bytes
/// "abc": header, one stored deflate block, and the Adler-32 checksum.
fn stored_abc() -> Vec<u8> {
    vec![
        0x78, 0x01, // zlib header
        0x01, 0x03, 0x00, 0xFC, 0xFF, // final stored block, length 3
        b'a', b'b', b'c', // payload
        0x02, 0x4D, 0x01, 0x27, // adler32 of "abc"
    ]
}

#[test]
fn inflates_a_complete_block_exactly() {
    let mut state = miniz_oxide::inflate::core::DecompressorOxide::new();
    let mut out: Vec<u8> = Vec::new();
    let n = decompress(&mut state, &stored_abc(), &mut out).unwrap();
    assert_eq!(n, 3);
    assert_eq!(&out[..n], b"abc");
}

#[test]
fn leftover_input_is_a_stream_length_fault() {
    let mut input = stored_abc();
    input.push(0);
    let mut state = miniz_oxide::inflate::core::DecompressorOxide::new();
    let mut out: Vec<u8> = Vec::new();
    assert_eq!(decompress(&mut state, &input, &mut out), Err(Error::IncorrectStreamLength));
}

#[test]
fn garbage_is_a_zlib_error() {
    let mut state = miniz_oxide::inflate::core::DecompressorOxide::new();
    let mut out: Vec<u8> = Vec::new();
    assert_eq!(
        decompress(&mut state, &[0x00, 0x11, 0x22, 0x33], &mut out),
        Err(Error::ZlibError)
    );
}

#[test]
fn the_state_is_reusable_across_blocks() {
    let mut state = miniz_oxide::inflate::core::DecompressorOxide::new();
    let mut out: Vec<u8> = Vec::new();
    let n1 = decompress(&mut state, &stored_abc(), &mut out).unwrap();
    assert_eq!(&out[..n1], b"abc");
    let n2 = decompress(&mut state, &stored_abc(), &mut out).unwrap();
    assert_eq!(&out[..n2], b"abc");
}
