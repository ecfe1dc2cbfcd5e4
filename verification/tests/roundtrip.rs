use huffcode::archive::HuffmanArchive;
use huffcode::bitbuf::BitBuf;
use huffcode::tree::{count_frequencies, HuffmanTree};

#[test]
fn roundtrip_empty() {
    let data: Vec<u8> = Vec::new();
    let archive = HuffmanArchive::compress_to_bytes(&data);
    // header (18 bytes) + dummy-leaf tree (9 bits padded to 2 bytes), no payload
    assert_eq!(archive.len(), 20);
    assert_eq!(&archive[0..2], b"JP");
    // tree_bit_len = 9, data_len = 0
    assert_eq!(&archive[2..10], &[0, 0, 0, 0, 0, 0, 0, 9]);
    assert_eq!(&archive[10..18], &[0, 0, 0, 0, 0, 0, 0, 0]);
    // leaf marker bit 1, then byte 0x00, then zero padding
    assert_eq!(&archive[18..20], &[0x80, 0x00]);
    let back = HuffmanArchive::decompress(&archive).unwrap();
    assert!(back.is_empty());
}

#[test]
fn roundtrip_single_repeated_byte() {
    let data = vec![0x41u8; 5];
    let archive = HuffmanArchive::compress_to_bytes(&data);
    assert_eq!(&archive[0..2], b"JP");
    // internal root + two leaves: 1 + 9 + 9 = 19 tree bits
    assert_eq!(&archive[2..10], &[0, 0, 0, 0, 0, 0, 0, 19]);
    assert_eq!(&archive[10..18], &[0, 0, 0, 0, 0, 0, 0, 5]);
    // 144 + 19 + 5 * 1 = 168 bits = 21 bytes: the code for 0x41 is one bit
    assert_eq!(archive.len(), 21);
    let back = HuffmanArchive::decompress(&archive).unwrap();
    assert_eq!(back, data);
}

#[test]
fn single_byte_code_is_one_bit() {
    let data = vec![0x41u8; 5];
    let tree = HuffmanTree::build(&data);
    let table = tree.get_encoding_table();
    assert_eq!(table.len(), 256);
    assert_eq!(table[0x41].len(), 1);
    // the real leaf sits left of the dummy, so its code is the zero bit
    assert!(!table[0x41].get(0));
    for b in 0..256 {
        if b != 0x41 && b != 0x00 {
            assert_eq!(table[b].len(), 0);
        }
    }
}

#[test]
fn roundtrip_all_byte_values() {
    let data: Vec<u8> = (0..=255u8).collect();
    let archive = HuffmanArchive::compress_to_bytes(&data);
    // 256 leaves, 255 internal nodes: 256 * 9 + 255 = 2559 tree bits
    assert_eq!(&archive[2..10], &[0, 0, 0, 0, 0, 0, 0x09, 0xFF]);
    let back = HuffmanArchive::decompress(&archive).unwrap();
    assert_eq!(back, data);
    // every code nonempty (balanced: all eight bits) and pairwise distinct
    let tree = HuffmanTree::build(&data);
    let table = tree.get_encoding_table();
    let mut codes: Vec<Vec<bool>> = Vec::new();
    for b in 0..256 {
        assert_eq!(table[b].len(), 8);
        let mut code = Vec::new();
        for i in 0..table[b].len() {
            code.push(table[b].get(i));
        }
        codes.push(code);
    }
    for x in 0..256 {
        for y in (x + 1)..256 {
            assert_ne!(codes[x], codes[y]);
        }
    }
}

#[test]
fn roundtrip_mixed_text() {
    let data = b"abracadabra alakazam".to_vec();
    let archive = HuffmanArchive::compress_to_bytes(&data);
    let back = HuffmanArchive::decompress(&archive).unwrap();
    assert_eq!(back, data);
}

#[test]
fn roundtrip_binary_blob() {
    let mut data = Vec::new();
    for i in 0..1000u32 {
        data.push((i * 7 % 256) as u8);
        data.push((i % 3) as u8);
    }
    let archive = HuffmanArchive::compress_to_bytes(&data);
    let back = HuffmanArchive::decompress(&archive).unwrap();
    assert_eq!(back, data);
}

#[test]
fn compress_is_deterministic() {
    let data = b"the same input twice".to_vec();
    let a1 = HuffmanArchive::compress_to_bytes(&data);
    let a2 = HuffmanArchive::compress_to_bytes(&data);
    assert_eq!(a1, a2);
}

#[test]
fn equal_frequencies_merge_in_byte_order() {
    // bytes 1 and 2 occur once each: the lower byte becomes the left child
    let data = vec![2u8, 1u8];
    let tree = HuffmanTree::build(&data);
    let table = tree.get_encoding_table();
    assert_eq!(table[1].len(), 1);
    assert_eq!(table[2].len(), 1);
    assert!(!table[1].get(0));
    assert!(table[2].get(0));
    let archive = HuffmanArchive::compress_to_bytes(&data);
    let back = HuffmanArchive::decompress(&archive).unwrap();
    assert_eq!(back, data);
}

#[test]
fn serialize_then_deserialize_gives_same_shape() {
    let data = b"hello, bits".to_vec();
    let tree = HuffmanTree::build(&data);
    let bits = tree.serialize();
    let (tree2, end) = HuffmanTree::deserialize_shape(&bits, 0).unwrap();
    assert_eq!(end, bits.len());
    let bits2 = tree2.serialize();
    assert_eq!(bits.len(), bits2.len());
    for i in 0..bits.len() {
        assert_eq!(bits.get(i), bits2.get(i));
    }
}

#[test]
fn frequency_counts() {
    let freq = count_frequencies(b"aab");
    assert_eq!(freq.len(), 256);
    assert_eq!(freq[b'a' as usize], 2);
    assert_eq!(freq[b'b' as usize], 1);
    assert_eq!(freq[0], 0);
    assert_eq!(freq[255], 0);
}

#[test]
fn compress_bit_level_layout() {
    // compress (bit assembly) agrees with compress_to_bytes (padded bytes)
    let data = vec![0x41u8; 5];
    let tree = HuffmanTree::build(&data);
    let bits = HuffmanArchive::compress(&data, &tree);
    assert_eq!(bits.len(), 144 + 19 + 5);
    let bytes = HuffmanArchive::compress_to_bytes(&data);
    let unpacked = BitBuf::from_bytes(&bytes);
    assert_eq!(unpacked.len(), 168);
    for i in 0..bits.len() {
        assert_eq!(bits.get(i), unpacked.get(i));
    }
}
