use huffcode::archive::{HuffmanArchive, HuffmanError};
use huffcode::bitbuf::BitBuf;
use huffcode::tree::HuffmanTree;

#[test]
fn one_byte_buffer_is_format_error() {
    let r = HuffmanArchive::decompress(&[0x4A]);
    assert!(matches!(r, Err(HuffmanError::FormatError)));
}

#[test]
fn short_header_is_format_error() {
    // a correct magic value but fewer than 18 header bytes
    let r = HuffmanArchive::decompress(b"JP123456789012345");
    assert!(matches!(r, Err(HuffmanError::FormatError)));
}

#[test]
fn wrong_magic_is_format_error() {
    let data = b"abracadabra".to_vec();
    let mut archive = HuffmanArchive::compress_to_bytes(&data);
    archive[0] = b'X';
    let r = HuffmanArchive::decompress(&archive);
    assert!(matches!(r, Err(HuffmanError::FormatError)));
}

#[test]
fn empty_buffer_is_format_error() {
    let r = HuffmanArchive::decompress(&[]);
    assert!(matches!(r, Err(HuffmanError::FormatError)));
}

#[test]
fn header_only_archive_is_truncated() {
    // a valid header whose tree bits are missing entirely
    let data = b"abracadabra".to_vec();
    let archive = HuffmanArchive::compress_to_bytes(&data);
    let r = HuffmanArchive::decompress(&archive[0..18]);
    assert!(matches!(r, Err(HuffmanError::TruncatedArchiveError)));
}

#[test]
fn truncated_payload_is_truncated() {
    let mut data = Vec::new();
    for i in 0..500u32 {
        data.push((i % 251) as u8);
    }
    let archive = HuffmanArchive::compress_to_bytes(&data);
    let cut = archive.len() - 40;
    let r = HuffmanArchive::decompress(&archive[0..cut]);
    assert!(matches!(r, Err(HuffmanError::TruncatedArchiveError)));
}

#[test]
fn leaf_root_with_data_is_malformed() {
    // header declaring one data byte, tree = bare leaf 0x00: the walk would
    // need a child of a leaf
    let mut archive = vec![0x4A, 0x50];
    archive.extend_from_slice(&[0, 0, 0, 0, 0, 0, 0, 9]); // tree_bit_len = 9
    archive.extend_from_slice(&[0, 0, 0, 0, 0, 0, 0, 1]); // data_len = 1
    archive.push(0x80); // bits: 1 (leaf) then byte 0x00, zero-padded
    archive.push(0x00);
    let r = HuffmanArchive::decompress(&archive);
    assert!(matches!(r, Err(HuffmanError::MalformedTreeError)));
}

#[test]
fn deserialize_of_empty_bits_is_truncated() {
    let bits = BitBuf::new();
    let r = HuffmanTree::deserialize_shape(&bits, 0);
    assert!(matches!(r, Err(HuffmanError::TruncatedArchiveError)));
}

#[test]
fn deserialize_of_cut_leaf_is_truncated() {
    // a leaf marker with only four of its eight value bits
    let mut bits = BitBuf::new();
    bits.push(true);
    bits.push(false);
    bits.push(true);
    bits.push(false);
    bits.push(true);
    let r = HuffmanTree::deserialize_shape(&bits, 0);
    assert!(matches!(r, Err(HuffmanError::TruncatedArchiveError)));
}

#[test]
fn header_fields_match_input_length() {
    let data = b"xyz".to_vec();
    let archive = HuffmanArchive::compress_to_bytes(&data);
    assert_eq!(archive[0], 0x4A);
    assert_eq!(archive[1], 0x50);
    assert_eq!(&archive[10..18], &[0, 0, 0, 0, 0, 0, 0, 3]);
}
