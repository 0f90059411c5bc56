use q3huff::bits::{read_bit, write_bits};
use q3huff::huffman::{compress, decompress, HuffError, Huffman, MAX_INPUT};
use q3huff::tree::{INTERNAL_NODE, NYT};

fn pseudo_random(len: usize, seed: u32, alphabet: u32) -> Vec<u8> {
    let mut x = seed;
    let mut out = Vec::with_capacity(len);
    for _ in 0..len {
        x = x.wrapping_mul(1_103_515_245).wrapping_add(12_345);
        out.push(((x >> 16) % alphabet) as u8);
    }
    out
}

fn round_trip(data: &[u8]) {
    let packed = compress(data).expect("compresses");
    let unpacked = decompress(&packed).expect("decompresses");
    assert_eq!(unpacked, data);
}

#[test]
fn single_new_symbol_is_header_and_raw_bits() {
    let out = compress(&[0x41]).unwrap();
    // 0x41 sent most significant bit first, packed least significant bit first.
    assert_eq!(out, vec![0x00, 0x01, 0x82]);
}

#[test]
fn single_symbol_leaves_decoder_with_two_leaves() {
    let mut h = Huffman::new();
    let out = h.adaptive_decode(&[0x00, 0x01, 0x82]).unwrap();
    assert_eq!(out, vec![0x41]);
    let root = h.node(h.root_index()).unwrap();
    assert_eq!(root.symbol, INTERNAL_NODE);
    assert_eq!(root.weight, 1);
    let left = h.node(root.left.unwrap()).unwrap();
    let right = h.node(root.right.unwrap()).unwrap();
    assert_eq!(left.symbol, NYT);
    assert_eq!(left.weight, 0);
    assert_eq!(right.symbol, 0x41);
    assert_eq!(right.weight, 1);
    assert_eq!(h.node_count(), 3);
    assert_eq!(h.leaf_weight(0x41), Some(1));
    assert_eq!(h.leaf_weight(0x42), None);
}

#[test]
fn empty_input_gives_empty_output() {
    assert_eq!(compress(&[]).unwrap(), Vec::<u8>::new());
    assert_eq!(decompress(&[]).unwrap(), Vec::<u8>::new());
}

#[test]
fn repeated_byte_round_trips() {
    for k in [1usize, 2, 255, 65535] {
        round_trip(&vec![b'z'; k]);
    }
}

#[test]
fn mixed_inputs_round_trip() {
    round_trip(b"\"\\g_password\\none\\cl_anonymous\\0\\snaps\\20\\rate\\25000\\name\\^7999zero\"");
    round_trip(&(0..=255u8).collect::<Vec<u8>>());
    round_trip(&(0..=255u8).rev().cycle().take(3000).collect::<Vec<u8>>());
    for seed in 1..20u32 {
        round_trip(&pseudo_random(500 + seed as usize * 37, seed, 1 + seed * 13));
    }
}

#[test]
fn largest_random_input_round_trips() {
    round_trip(&pseudo_random(MAX_INPUT, 7, 256));
}

#[test]
fn two_fresh_coders_agree() {
    let data = pseudo_random(4000, 99, 40);
    let a = Huffman::new().adaptive_encode(&data).unwrap();
    let b = Huffman::new().adaptive_encode(&data).unwrap();
    assert_eq!(a, b);
    let mut reused = Huffman::new();
    let first = reused.adaptive_encode(&data).unwrap();
    let second = reused.adaptive_encode(&data).unwrap();
    assert_eq!(first, second);
    assert_eq!(first, a);
}

#[test]
fn repeated_byte_gets_cheaper() {
    // First occurrence: no path bits for the lone NYT root, then eight raw bits.
    // Every later one: a single bit.
    let one = compress(&[b'a']).unwrap();
    assert_eq!(one.len(), 2 + 1);
    let nine = compress(&[b'a'; 9]).unwrap();
    assert_eq!(nine.len(), 2 + 2);
    let many = compress(&[b'a'; 1000]).unwrap();
    assert_eq!(many.len(), 2 + (8 + 999 + 7) / 8);
}

#[test]
fn frequent_symbol_costs_fewer_bits_than_first_sight() {
    let mut data = vec![b'x'; 200];
    data.extend_from_slice(b"abcdefgh");
    let base = compress(&data).unwrap().len();
    data.extend(std::iter::repeat(b'x').take(800));
    let more = compress(&data).unwrap().len();
    // 800 more occurrences of the frequent symbol cost well under 8 bits each.
    assert!((more - base) * 8 < 800 * 2);
}

#[test]
fn weights_stay_consistent_after_each_symbol() {
    let data = pseudo_random(700, 3, 60);
    let mut counts = [0u32; 256];
    for i in 1..=data.len() {
        let mut h = Huffman::new();
        h.adaptive_encode(&data[..i]).unwrap();
        counts[data[i - 1] as usize] += 1;
        assert!(h.weights_consistent(), "after {} symbols", i);
        for s in 0..=255u8 {
            let w = h.leaf_weight(s);
            if counts[s as usize] == 0 {
                assert_eq!(w, None);
            } else {
                assert_eq!(w, Some(counts[s as usize]));
            }
        }
        let root = h.node(h.root_index()).unwrap();
        assert_eq!(root.weight as usize, i);
    }
}

#[test]
fn too_long_input_is_refused() {
    let data = vec![0u8; MAX_INPUT + 1];
    assert_eq!(compress(&data), Err(HuffError::TooLong));
}

#[test]
fn lone_byte_stream_is_truncated() {
    assert_eq!(decompress(&[0x00]), Err(HuffError::Truncated));
}

#[test]
fn header_announcing_more_than_present_is_truncated() {
    assert_eq!(decompress(&[0x00, 0x05]), Err(HuffError::Truncated));
    let mut out = compress(b"hello world").unwrap();
    out.pop();
    assert_eq!(decompress(&out), Err(HuffError::Truncated));
}

#[test]
fn header_counts_symbols_big_endian() {
    let out = compress(&vec![1u8; 300]).unwrap();
    assert_eq!(out[0], 1);
    assert_eq!(out[1], 44);
}

#[test]
fn bits_pack_least_significant_first() {
    let mut out = vec![0xAAu8];
    write_bits(&mut out, &vec![true, false, false, false, false, false, false, true, true]);
    assert_eq!(out, vec![0xAA, 0x81, 0x01]);
    assert!(read_bit(&out, 8));
    assert!(!read_bit(&out, 9));
    assert!(read_bit(&out, 15));
    assert!(read_bit(&out, 16));
    assert!(!read_bit(&out, 17));
    assert!(read_bit(&out, 1));
}

#[test]
fn whole_bytes_after_last_symbol_are_refused() {
    let mut out = compress(b"hello world").unwrap();
    out.push(0);
    assert_eq!(decompress(&out), Err(HuffError::TrailingData));
    let mut single = compress(&[0x41]).unwrap();
    single.push(0xFF);
    assert_eq!(decompress(&single), Err(HuffError::TrailingData));
}

#[test]
fn refused_input_leaves_coder_unchanged() {
    let mut h = Huffman::new();
    h.adaptive_encode(b"abc").unwrap();
    let before = h.node_count();
    let too_long = vec![7u8; MAX_INPUT + 1];
    assert_eq!(h.adaptive_encode(&too_long), Err(HuffError::TooLong));
    assert_eq!(h.node_count(), before);
    assert_eq!(h.leaf_weight(b'a'), Some(1));
}
