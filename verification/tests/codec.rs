use minilzo::{compress, decompress, Error};

#[test]
fn test_compress_skips_short() {
    assert_eq!(Err(Error::NotCompressible), compress("foo".as_bytes()));
}

#[test]
fn test_compress_fails_with_short_output() {
    let data = [0u8; 128 * 1024];
    let compressed = compress(&data[..]).unwrap();

    assert_eq!(Err(Error::OutputOverrun), decompress(&compressed, 128));
}

#[test]
fn simple_compress_decompress() {
    let data = [0u8; 128 * 1024];
    let compressed = compress(&data[..]).unwrap();

    assert_eq!(593, compressed.len());

    let decompressed = decompress(&compressed, 128 * 1024).unwrap();
    assert_eq!(128 * 1024, decompressed.len());
}

#[test]
fn test_compress_decompress_lorem_round() {
    let lorem = "Lorem ipsum dolor sit amet, consetetur sadipscing elitr, sed diam nonumy eirmod \
                 tempor invidunt ut labore et dolore magna aliquyam erat, sed diam voluptua. At \
                 vero eos et accusam et justo duo dolores et ea rebum. Stet clita kasd gubergren, \
                 no sea takimata sanctus est Lorem ipsum dolor sit amet. Lorem ipsum dolor sit \
                 amet, consetetur sadipscing elitr, sed diam nonumy eirmod tempor invidunt ut \
                 labore et dolore magna aliquyam erat, sed diam voluptua.";

    let compressed = compress(lorem.as_bytes()).unwrap();
    let decompressed = decompress(&compressed, lorem.len()).unwrap();

    assert_eq!(lorem.len(), decompressed.len());
    assert_eq!(lorem.as_bytes(), &decompressed[..]);
}

#[test]
fn test_alice_wonderland_both() {
    let alice = "\r\n\r\n\r\n\r\n                ALICE'S ADVENTURES IN WONDERLAND\r\n";

    let compressed = compress(alice.as_bytes()).unwrap();
    let decompressed = decompress(&compressed, alice.len()).unwrap();

    assert_eq!(alice.len(), decompressed.len());
    assert_eq!(alice.as_bytes(), &decompressed[..]);
}

#[test]
fn zeros_decode_to_zeros() {
    let data = vec![0u8; 128 * 1024];
    let compressed = compress(&data).unwrap();
    let decompressed = decompress(&compressed, data.len()).unwrap();
    assert_eq!(data, decompressed);
}

#[test]
fn alice_stream_is_exact() {
    let alice = "\r\n\r\n\r\n\r\n                ALICE'S ADVENTURES IN WONDERLAND\r\n";
    let compressed = compress(alice.as_bytes()).unwrap();
    let mut expected: Vec<u8> = vec![6];
    expected.extend_from_slice(b"\r\n\r\n\r\n\r\n ");
    expected.extend_from_slice(&[45, 0, 0]);
    expected.extend_from_slice(&[0, 16]);
    expected.extend_from_slice(b"ALICE'S ADVENTURES IN WONDERLAND\r\n");
    expected.extend_from_slice(&[17, 0, 0]);
    assert_eq!(expected, compressed);
    assert_eq!(52, compressed.len());
}
