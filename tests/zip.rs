use minigit::zip::{compress, decompress};

#[test]
fn test_compress_decompress() {
    let data = b"Hello, world\0!";
    let compressed_data = compress(data).unwrap();
    let decompressed_data = decompress(&compressed_data).unwrap();
    assert_eq!(data, decompressed_data.as_slice());
}

#[test]
fn test_decompress_compress() {
    let raw_data = b"Hello, world\0!";
    let data = compress(raw_data).unwrap();

    let decompressed_data = decompress(&data).unwrap();
    let compressed_data = compress(&decompressed_data).unwrap();
    assert_eq!(data, compressed_data.as_slice());
}

#[test]
fn compressed_form_is_not_the_input() {
    let data = b"Hello, world\0!";
    let compressed = compress(data).unwrap();
    assert_ne!(compressed.as_slice(), &data[..]);
    assert_eq!(compressed[0], 0x78);
}

#[test]
fn decompress_rejects_garbage() {
    assert_eq!(decompress(b"not zlib"), Err(minigit::error::GitError::CorruptObject));
}
