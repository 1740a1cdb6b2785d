use bit_vec::BitVec;
use huffman::builder::{build_huffman_tree, count_frequencies};
use huffman::codec::{compression, decompression, scan_tree, serialize_bit_vec, unserialize_bit_vec};
use huffman::error::HuffmanError;
use huffman::tree::{decode_tree, encode_tree, Node};

fn bits(v: &[bool]) -> BitVec {
    let mut b = BitVec::new();
    for &x in v {
        b.push(x);
    }
    b
}

#[test]
fn two_symbols_exact_bytes() {
    let buf = compression(b"ab".to_vec()).unwrap();
    assert_eq!(buf, vec![0x58, 0x6C, 0x48, 3]);
    assert_eq!(decompression(buf).unwrap(), b"ab".to_vec());
}

#[test]
fn round_trip_text() {
    let text = b"abracadabra, the quick brown fox jumps over the lazy dog".to_vec();
    let buf = compression(text.clone()).unwrap();
    assert_eq!(decompression(buf).unwrap(), text);
}

#[test]
fn round_trip_skewed_frequencies() {
    let mut data = Vec::new();
    for i in 0..2000u32 {
        data.push(if i % 7 == 0 { 3u8 } else if i % 3 == 0 { 200 } else { 17 });
    }
    data.push(255);
    let buf = compression(data.clone()).unwrap();
    assert!(buf.len() < data.len());
    assert_eq!(decompression(buf).unwrap(), data);
}

#[test]
fn single_symbol_round_trip() {
    let data = vec![0x41u8; 1000];
    let buf = compression(data.clone()).unwrap();
    // 9 tree bits and one bit per byte: 1009 bits, 127 bytes, 7 padding bits.
    assert_eq!(buf.len(), 128);
    assert_eq!(buf[0], 0xA0);
    assert_eq!(buf[1], 0x80);
    assert_eq!(buf[127], 7);
    assert_eq!(decompression(buf).unwrap(), data);
}

#[test]
fn single_byte_round_trip() {
    let buf = compression(vec![0u8]).unwrap();
    assert_eq!(decompression(buf).unwrap(), vec![0u8]);
}

#[test]
fn all_byte_values_round_trip() {
    let data: Vec<u8> = (0..=255u8).collect();
    let counts = count_frequencies(&data);
    let tree = build_huffman_tree(&counts).unwrap();
    let mut dict: Vec<BitVec> = (0..256).map(|_| BitVec::new()).collect();
    scan_tree(&tree, &BitVec::new(), &mut dict);
    for word in &dict {
        assert_eq!(word.len(), 8);
    }
    let buf = compression(data.clone()).unwrap();
    // 2559 tree bits and 2048 code bits: 4607 bits, 576 bytes, 1 padding bit.
    assert_eq!(buf.len(), 577);
    assert_eq!(buf[576], 1);
    assert_eq!(decompression(buf).unwrap(), data);
}

#[test]
fn empty_input_is_rejected() {
    assert_eq!(compression(Vec::new()), Err(HuffmanError::EmptyInput));
}

#[test]
fn size_stays_within_verbatim_plus_tree() {
    let mut data = Vec::new();
    let mut x: u32 = 12345;
    for _ in 0..4096 {
        x = x.wrapping_mul(1103515245).wrapping_add(12345);
        data.push((x >> 16) as u8);
    }
    let buf = compression(data.clone()).unwrap();
    let worst_tree_bits = 256 * 9 + 255;
    assert!((buf.len() - 1) * 8 <= 8 * data.len() + worst_tree_bits + 7);
    assert_eq!(decompression(buf).unwrap(), data);
}

#[test]
fn padding_whole_bytes() {
    let b = bits(&[true; 16]);
    let out = serialize_bit_vec(&b);
    assert_eq!(out, vec![0xFF, 0xFF, 0]);
    assert_eq!(unserialize_bit_vec(&out).unwrap(), b);
}

#[test]
fn padding_three_leftover_bits() {
    let v = [true, false, true, true, false, false, true, false, true, true, true];
    let b = bits(&v);
    let out = serialize_bit_vec(&b);
    assert_eq!(out, vec![0b1011_0010, 0b1110_0000, 5]);
    let back = unserialize_bit_vec(&out).unwrap();
    assert_eq!(back.len(), 16 - 5);
    assert_eq!(back, b);
}

#[test]
fn padding_empty_sequence() {
    let out = serialize_bit_vec(&BitVec::new());
    assert_eq!(out, vec![0]);
    assert_eq!(unserialize_bit_vec(&out).unwrap().len(), 0);
}

#[test]
fn truncated_tree_is_malformed() {
    let buf = compression(b"abracadabra".to_vec()).unwrap();
    let cut = vec![buf[0], buf[1], 0];
    assert_eq!(decompression(cut), Err(HuffmanError::MalformedTreeEncoding));
}

#[test]
fn no_bits_is_malformed() {
    assert_eq!(decompression(vec![0]), Err(HuffmanError::MalformedTreeEncoding));
}

#[test]
fn leaf_cut_short_is_malformed() {
    // A leaf marker followed by only seven symbol bits.
    assert_eq!(decompression(vec![0xFF, 0]), Err(HuffmanError::MalformedTreeEncoding));
}

#[test]
fn empty_buffer_is_truncated() {
    assert_eq!(decompression(Vec::new()), Err(HuffmanError::TruncatedBuffer));
}

#[test]
fn oversized_pad_is_truncated() {
    assert_eq!(decompression(vec![9]), Err(HuffmanError::TruncatedBuffer));
    assert_eq!(decompression(vec![0xAB, 9]), Err(HuffmanError::TruncatedBuffer));
}

#[test]
fn frequencies_are_counted() {
    let counts = count_frequencies(&b"hello".to_vec());
    assert_eq!(counts.len(), 256);
    assert_eq!(counts[b'l' as usize], 2);
    assert_eq!(counts[b'h' as usize], 1);
    assert_eq!(counts[b'z' as usize], 0);
}

#[test]
fn tree_of_one_symbol_is_a_leaf() {
    let mut counts = vec![0u64; 256];
    counts[7] = 5;
    assert_eq!(build_huffman_tree(&counts), Some(Node::Leaf(7)));
    assert_eq!(build_huffman_tree(&vec![0u64; 256]), None);
}

#[test]
fn lowest_weights_merge_first() {
    let mut counts = vec![0u64; 256];
    counts[1] = 10;
    counts[2] = 1;
    counts[3] = 2;
    let tree = build_huffman_tree(&counts).unwrap();
    // 2 and 3 merge into a branch of weight 3, which is lighter than 1 and so
    // becomes the left child.
    let expected = Node::Branch(
        Box::new(Node::Branch(Box::new(Node::Leaf(2)), Box::new(Node::Leaf(3)))),
        Box::new(Node::Leaf(1)),
    );
    assert_eq!(tree, expected);
}

#[test]
fn codewords_follow_paths() {
    let tree = Node::Branch(
        Box::new(Node::Leaf(b'a')),
        Box::new(Node::Branch(Box::new(Node::Leaf(b'b')), Box::new(Node::Leaf(b'c')))),
    );
    let mut dict: Vec<BitVec> = (0..256).map(|_| BitVec::new()).collect();
    scan_tree(&tree, &BitVec::new(), &mut dict);
    assert_eq!(dict[b'a' as usize], bits(&[false]));
    assert_eq!(dict[b'b' as usize], bits(&[true, false]));
    assert_eq!(dict[b'c' as usize], bits(&[true, true]));
    assert_eq!(dict[b'd' as usize].len(), 0);
}

#[test]
fn tree_encoding_round_trip() {
    let tree = Node::Branch(Box::new(Node::Leaf(0x41)), Box::new(Node::Leaf(0xFE)));
    let mut out = BitVec::new();
    encode_tree(&tree, &mut out);
    assert_eq!(
        out,
        bits(&[
            false, true, false, true, false, false, false, false, false, true, true, true, true,
            true, true, true, true, true, false
        ])
    );
    out.push(true);
    let (back, next) = decode_tree(&out, 0).unwrap();
    assert_eq!(back, tree);
    assert_eq!(next, 19);
}

#[test]
fn unfinished_codeword_is_malformed() {
    let tree = Node::Branch(
        Box::new(Node::Leaf(0x41)),
        Box::new(Node::Branch(Box::new(Node::Leaf(0x42)), Box::new(Node::Leaf(0x43)))),
    );
    let mut stream = BitVec::new();
    encode_tree(&tree, &mut stream);
    stream.push(false);
    let whole = serialize_bit_vec(&stream);
    assert_eq!(decompression(whole).unwrap(), vec![0x41]);
    stream.push(true);
    let cut = serialize_bit_vec(&stream);
    assert_eq!(decompression(cut), Err(HuffmanError::MalformedTreeEncoding));
}

#[test]
fn pad_byte_above_seven_is_truncated() {
    assert_eq!(decompression(vec![0, 0, 8]), Err(HuffmanError::TruncatedBuffer));
    assert!(unserialize_bit_vec(&vec![0, 0, 8]).is_err());
}

#[test]
fn two_symbols_whole_bytes() {
    // 19 tree bits and five one-bit codewords: 24 bits, no padding.
    let buf = compression(vec![0, 1, 0, 1, 0]).unwrap();
    assert_eq!(buf.len(), 4);
    assert_eq!(buf[3], 0);
    assert_eq!(decompression(buf).unwrap(), vec![0, 1, 0, 1, 0]);
}

#[test]
fn two_symbols_three_leftover_bits() {
    // 19 tree bits and eight one-bit codewords: 27 bits, 5 padding bits.
    let data = vec![0, 0, 0, 0, 0, 1, 1, 1];
    let buf = compression(data.clone()).unwrap();
    assert_eq!(buf.len(), 5);
    assert_eq!(buf[4], 5);
    assert_eq!(decompression(buf).unwrap(), data);
}

#[test]
fn all_byte_values_open_with_branches() {
    let data: Vec<u8> = (0..=255u8).collect();
    let buf = compression(data).unwrap();
    assert_eq!(buf[0], 0x00);
}
