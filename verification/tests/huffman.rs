use rustman::bits::{pack_bits, read_bit};
use rustman::builder::{build_huffman_tree, build_tree};
use rustman::codec::{decode, encode, DecodeError, EncodeError};
use rustman::codes::derive_codes;
use rustman::config::Config;
use rustman::descriptor::{parse_descriptor, tree_descriptor};
use rustman::freq::frequencies;
use rustman::huffman::{build_huffman_encoding, compress, decompress, CompressedPayload};
use rustman::node::HuffmanNode;
use std::collections::HashMap;

fn internal(l: HuffmanNode, r: HuffmanNode) -> HuffmanNode {
    HuffmanNode { ch: None, f: l.f + r.f, l: Some(Box::new(l)), r: Some(Box::new(r)) }
}

fn round_trip(input: &[u8]) {
    let payload = compress(input);
    assert_eq!(payload.original_length, input.len());
    assert!(payload.bit_count <= 8 * payload.packed_bits.len());
    assert_eq!(payload.packed_bits.len(), (payload.bit_count + 7) / 8);
    assert_eq!(decompress(&payload), Ok(input.to_vec()));
}

#[test]
fn test_encode_decode() {
    let input = b"this is an example of a huffman tree";
    let (codes, mut queue) = build_huffman_encoding(input).unwrap();
    let root = queue.pop().unwrap();
    let (packed, bit_count) = encode(input, &codes).unwrap();
    assert_eq!(decode(&packed, bit_count, &root), Ok(input.to_vec()));
}

#[test]
fn three_symbols_get_the_optimal_code_lengths() {
    let input = b"aaaabbbcc";
    let freqs = frequencies(input);
    assert_eq!(freqs.len(), 3);
    assert_eq!(freqs[&b'a'], 4);
    assert_eq!(freqs[&b'b'], 3);
    assert_eq!(freqs[&b'c'], 2);

    let (codes, _) = build_huffman_encoding(input).unwrap();
    assert_eq!(codes.len(), 3);
    assert_eq!(codes[&b'a'].len(), 1);
    assert_eq!(codes[&b'b'].len(), 2);
    assert_eq!(codes[&b'c'].len(), 2);

    let payload = compress(input);
    assert_eq!(payload.bit_count, 4 * 1 + 3 * 2 + 2 * 2);
    assert_eq!(payload.original_length, 9);
    assert_eq!(decompress(&payload), Ok(input.to_vec()));
}

#[test]
fn empty_input_gives_an_empty_payload() {
    let payload = compress(b"");
    assert_eq!(payload.bit_count, 0);
    assert_eq!(payload.original_length, 0);
    assert!(payload.tree_descriptor.is_empty());
    assert!(payload.packed_bits.is_empty());
    assert_eq!(decompress(&payload), Ok(Vec::new()));
    assert!(build_huffman_encoding(b"").is_none());
    assert_eq!(build_huffman_tree(b"").size(), 0);
}

#[test]
fn one_distinct_symbol_gets_the_code_zero() {
    let input = b"zzzz";
    let (codes, queue) = build_huffman_encoding(input).unwrap();
    assert_eq!(codes.len(), 1);
    assert_eq!(codes[&b'z'], "0");
    assert_eq!(queue.size(), 1);
    assert_eq!(queue.peek(), Some(&HuffmanNode::single(Some(b'z'), 4)));

    let payload = compress(input);
    assert_eq!(payload.bit_count, 4);
    assert_eq!(payload.packed_bits, vec![0u8]);
    assert_eq!(payload.tree_descriptor, vec![1u8, b'z']);
    assert_eq!(decompress(&payload), Ok(input.to_vec()));
}

#[test]
fn round_trip_on_various_inputs() {
    round_trip(b"");
    round_trip(b"a");
    round_trip(b"ab");
    round_trip(b"aaaaaaaaaaaaaaaaaaaaaaaaaaaaaaaaa");
    round_trip(b"abracadabra");
    round_trip(b"the quick brown fox jumps over the lazy dog");
    round_trip(&[0u8, 255, 0, 255, 1, 2, 3, 0, 0, 0]);
    let all: Vec<u8> = (0..=255u8).collect();
    round_trip(&all);
    let mut skewed = Vec::new();
    for i in 0..64u32 {
        for _ in 0..(i * i + 1) {
            skewed.push(i as u8);
        }
    }
    round_trip(&skewed);
}

#[test]
fn compression_stays_within_eight_bits_per_byte() {
    let inputs: [&[u8]; 4] = [
        b"ab",
        b"abracadabra",
        b"the quick brown fox jumps over the lazy dog",
        b"aaaaaaaaaaaaaaaaaaaaaaaaaaaaaaaab",
    ];
    for input in inputs.iter() {
        let payload = compress(input);
        assert!(payload.bit_count <= 8 * input.len());
    }
    let all: Vec<u8> = (0..=255u8).collect();
    assert_eq!(compress(&all).bit_count, 8 * 256);
}

#[test]
fn no_code_is_a_prefix_of_another() {
    let (codes, _) = build_huffman_encoding(b"mississippi river banks").unwrap();
    for (a, code_a) in codes.iter() {
        assert!(!code_a.is_empty());
        assert!(code_a.chars().all(|c| c == '0' || c == '1'));
        for (b, code_b) in codes.iter() {
            if a != b {
                assert!(!code_b.starts_with(code_a.as_str()));
            }
        }
    }
}

#[test]
fn frequencies_count_every_byte() {
    let freqs = frequencies(b"hello");
    assert_eq!(freqs.len(), 4);
    assert_eq!(freqs[&b'h'], 1);
    assert_eq!(freqs[&b'e'], 1);
    assert_eq!(freqs[&b'l'], 2);
    assert_eq!(freqs[&b'o'], 1);
    assert!(frequencies(b"").is_empty());
}

#[test]
fn tree_of_an_empty_table_is_none() {
    let freqs: HashMap<u8, u64> = HashMap::new();
    assert!(build_tree(&freqs).is_none());
}

#[test]
fn tree_of_one_entry_is_a_leaf() {
    let mut freqs: HashMap<u8, u64> = HashMap::new();
    freqs.insert(b'q', 17);
    assert_eq!(build_tree(&freqs), Some(HuffmanNode::single(Some(b'q'), 17)));
}

#[test]
fn tree_joins_the_two_lightest_first() {
    let mut freqs: HashMap<u8, u64> = HashMap::new();
    freqs.insert(b'a', 4);
    freqs.insert(b'b', 3);
    freqs.insert(b'c', 2);
    let tree = build_tree(&freqs).unwrap();
    let expected = internal(
        HuffmanNode::single(Some(b'a'), 4),
        internal(HuffmanNode::single(Some(b'c'), 2), HuffmanNode::single(Some(b'b'), 3)),
    );
    assert_eq!(tree, expected);
    assert_eq!(tree.f, 9);
}

#[test]
fn codes_follow_the_paths() {
    let tree = internal(
        HuffmanNode::single(Some(b'a'), 4),
        internal(HuffmanNode::single(Some(b'c'), 2), HuffmanNode::single(Some(b'b'), 3)),
    );
    let codes = derive_codes(&tree);
    assert_eq!(codes.len(), 3);
    assert_eq!(codes[&b'a'], "0");
    assert_eq!(codes[&b'c'], "10");
    assert_eq!(codes[&b'b'], "11");
}

#[test]
fn encode_packs_most_significant_bit_first() {
    let mut codes: HashMap<u8, String> = HashMap::new();
    codes.insert(b'a', "0".to_string());
    codes.insert(b'c', "10".to_string());
    codes.insert(b'b', "11".to_string());
    // a b c a a -> 0 11 10 0 0 -> 0111 000. (7 bits)
    assert_eq!(encode(b"abcaa", &codes), Ok((vec![0b0111_0000u8], 7)));
    // nine bits spill into a second byte
    assert_eq!(encode(b"bbbba", &codes), Ok((vec![0b1111_1111u8, 0b0000_0000], 9)));
    assert_eq!(encode(b"bbbbb", &codes), Ok((vec![0b1111_1111u8, 0b1100_0000], 10)));
    assert_eq!(encode(b"", &codes), Ok((Vec::new(), 0)));
}

#[test]
fn encode_rejects_a_symbol_without_code() {
    let mut codes: HashMap<u8, String> = HashMap::new();
    codes.insert(b'a', "0".to_string());
    assert_eq!(encode(b"aab", &codes), Err(EncodeError::UnknownSymbol));
}

#[test]
fn decode_walks_the_tree() {
    let tree = internal(
        HuffmanNode::single(Some(b'a'), 4),
        internal(HuffmanNode::single(Some(b'c'), 2), HuffmanNode::single(Some(b'b'), 3)),
    );
    assert_eq!(decode(&[0b0111_0000], 7, &tree), Ok(b"abcaa".to_vec()));
    // the pad bits are not decoded
    assert_eq!(decode(&[0b0111_0011], 5, &tree), Ok(b"abc".to_vec()));
    assert_eq!(decode(&[], 0, &tree), Ok(Vec::new()));
}

#[test]
fn decode_reports_a_truncated_stream() {
    let tree = internal(
        HuffmanNode::single(Some(b'a'), 4),
        internal(HuffmanNode::single(Some(b'c'), 2), HuffmanNode::single(Some(b'b'), 3)),
    );
    // the last bit starts a code that does not end
    assert_eq!(decode(&[0b0100_0000], 2, &tree), Err(DecodeError::TruncatedStream));
    // more bits are claimed than are stored
    assert_eq!(decode(&[0b0000_0000], 9, &tree), Err(DecodeError::TruncatedStream));
}

#[test]
fn decode_reports_a_corrupt_tree() {
    let hollow = HuffmanNode::single(None, 0);
    assert_eq!(decode(&[0b0000_0000], 1, &hollow), Err(DecodeError::CorruptTree));
    let one_sided = HuffmanNode {
        ch: None,
        f: 1,
        l: Some(Box::new(HuffmanNode::single(Some(b'x'), 1))),
        r: None,
    };
    assert_eq!(decode(&[0b0000_0000], 2, &one_sided), Ok(b"xx".to_vec()));
    assert_eq!(decode(&[0b0100_0000], 2, &one_sided), Err(DecodeError::CorruptTree));
    // a single leaf has the code 0 only
    let lone = HuffmanNode::single(Some(b'z'), 4);
    assert_eq!(decode(&[0b0010_0000], 3, &lone), Err(DecodeError::CorruptTree));
}

#[test]
fn descriptor_is_written_root_first() {
    let tree = internal(
        HuffmanNode::single(Some(b'a'), 4),
        internal(HuffmanNode::single(Some(b'c'), 2), HuffmanNode::single(Some(b'b'), 3)),
    );
    assert_eq!(tree_descriptor(&tree), vec![0, 1, b'a', 0, 1, b'c', 1, b'b']);
    assert_eq!(tree_descriptor(&HuffmanNode::single(Some(9), 1)), vec![1, 9]);
    assert_eq!(tree_descriptor(&HuffmanNode::single(None, 1)), vec![0, 2, 2]);
}

#[test]
fn descriptor_reads_back_without_weights() {
    let tree = internal(
        HuffmanNode::single(Some(b'a'), 4),
        internal(HuffmanNode::single(Some(b'c'), 2), HuffmanNode::single(Some(b'b'), 3)),
    );
    let bare = HuffmanNode {
        ch: None,
        f: 0,
        l: Some(Box::new(HuffmanNode::single(Some(b'a'), 0))),
        r: Some(Box::new(HuffmanNode {
            ch: None,
            f: 0,
            l: Some(Box::new(HuffmanNode::single(Some(b'c'), 0))),
            r: Some(Box::new(HuffmanNode::single(Some(b'b'), 0))),
        })),
    };
    assert_eq!(parse_descriptor(&tree_descriptor(&tree)), Ok(bare));
    assert_eq!(parse_descriptor(&[0, 2, 2]), Ok(HuffmanNode::single(None, 0)));
}

#[test]
fn malformed_descriptors_are_rejected() {
    assert_eq!(parse_descriptor(&[]), Err(DecodeError::CorruptTree));
    assert_eq!(parse_descriptor(&[1]), Err(DecodeError::CorruptTree));
    assert_eq!(parse_descriptor(&[2]), Err(DecodeError::CorruptTree));
    assert_eq!(parse_descriptor(&[7, 1]), Err(DecodeError::CorruptTree));
    assert_eq!(parse_descriptor(&[0, 1, b'a']), Err(DecodeError::CorruptTree));
    assert_eq!(parse_descriptor(&[1, b'a', 0]), Err(DecodeError::CorruptTree));
}

#[test]
fn decompress_rejects_inconsistent_payloads() {
    let good = compress(b"abracadabra");

    let bad_tree = CompressedPayload {
        tree_descriptor: vec![0, 1],
        packed_bits: good.packed_bits.clone(),
        bit_count: good.bit_count,
        original_length: good.original_length,
    };
    assert_eq!(decompress(&bad_tree), Err(DecodeError::CorruptTree));

    let too_many_bits = CompressedPayload {
        tree_descriptor: good.tree_descriptor.clone(),
        packed_bits: good.packed_bits.clone(),
        bit_count: good.packed_bits.len() * 8 + 1,
        original_length: good.original_length,
    };
    assert_eq!(decompress(&too_many_bits), Err(DecodeError::TruncatedStream));

    let wrong_length = CompressedPayload {
        tree_descriptor: good.tree_descriptor.clone(),
        packed_bits: good.packed_bits.clone(),
        bit_count: good.bit_count,
        original_length: good.original_length + 1,
    };
    assert_eq!(decompress(&wrong_length), Err(DecodeError::TruncatedStream));

    let bits_without_tree = CompressedPayload {
        tree_descriptor: Vec::new(),
        packed_bits: vec![0],
        bit_count: 1,
        original_length: 0,
    };
    assert_eq!(decompress(&bits_without_tree), Err(DecodeError::CorruptTree));
}

#[test]
fn bits_pack_and_read_back() {
    assert_eq!(pack_bits(&vec![true, false, true]), vec![0b1010_0000u8]);
    assert_eq!(pack_bits(&Vec::new()), Vec::<u8>::new());
    assert_eq!(
        pack_bits(&vec![false, false, false, false, false, false, false, true, true]),
        vec![0b0000_0001u8, 0b1000_0000]
    );
    let bytes = [0b1010_0000u8, 0b0000_0001];
    assert!(read_bit(&bytes, 0));
    assert!(!read_bit(&bytes, 1));
    assert!(read_bit(&bytes, 2));
    assert!(!read_bit(&bytes, 8));
    assert!(read_bit(&bytes, 15));
}

#[test]
fn nodes_compare_by_weight() {
    let light = HuffmanNode::single(Some(b'x'), 1);
    let heavy = HuffmanNode::single(Some(b'a'), 2);
    let other = HuffmanNode::single(Some(b'y'), 1);
    assert!(light < heavy);
    assert!(heavy > light);
    assert!(!(light < other));
    assert!(!(light > other));
    assert!(light != other);
    assert_eq!(light.clone(), light);
}

#[test]
fn config_takes_three_arguments() {
    let args = vec![
        "prog".to_string(),
        "encode".to_string(),
        "in.txt".to_string(),
        "out.huf".to_string(),
        "extra".to_string(),
    ];
    let config = Config::build(args.into_iter()).unwrap();
    assert_eq!(config.action, "encode");
    assert_eq!(config.input_path, "in.txt");
    assert_eq!(config.output_path, "out.huf");
}

#[test]
fn config_names_the_missing_argument() {
    let none: Vec<String> = Vec::new();
    assert_eq!(Config::build(none.into_iter()).err(), Some("No action supplied."));
    let one = vec!["prog".to_string()];
    assert_eq!(Config::build(one.into_iter()).err(), Some("No action supplied."));
    let two = vec!["prog".to_string(), "encode".to_string()];
    assert_eq!(Config::build(two.into_iter()).err(), Some("No input file path supplied"));
    let three = vec!["prog".to_string(), "encode".to_string(), "in".to_string()];
    assert_eq!(Config::build(three.into_iter()).err(), Some("No output file path supplied"));
}

#[test]
fn stored_payload_reads_back() {
    let payload = compress(b"abracadabra");
    let bytes = rustman::container::to_bytes(&payload);
    assert_eq!(bytes.len(), 24 + payload.tree_descriptor.len() + payload.packed_bits.len());
    assert_eq!(&bytes[0..8], &[11u8, 0, 0, 0, 0, 0, 0, 0]);
    assert_eq!(bytes[8], payload.bit_count as u8);
    assert_eq!(bytes[16], payload.tree_descriptor.len() as u8);
    let back = rustman::container::from_bytes(&bytes).unwrap();
    assert_eq!(back.tree_descriptor, payload.tree_descriptor);
    assert_eq!(back.packed_bits, payload.packed_bits);
    assert_eq!(back.bit_count, payload.bit_count);
    assert_eq!(back.original_length, payload.original_length);
    assert_eq!(decompress(&back), Ok(b"abracadabra".to_vec()));
}

#[test]
fn stored_payload_of_empty_input_is_the_header() {
    let bytes = rustman::container::to_bytes(&compress(b""));
    assert_eq!(bytes, vec![0u8; 24]);
    let back = rustman::container::from_bytes(&bytes).unwrap();
    assert_eq!(decompress(&back), Ok(Vec::new()));
}

#[test]
fn short_or_inconsistent_stored_payloads_are_rejected() {
    assert_eq!(rustman::container::from_bytes(&[]).err(), Some(DecodeError::TruncatedStream));
    assert_eq!(
        rustman::container::from_bytes(&[0u8; 23]).err(),
        Some(DecodeError::TruncatedStream)
    );
    let mut bytes = vec![0u8; 24];
    bytes[16] = 1;
    assert_eq!(rustman::container::from_bytes(&bytes).err(), Some(DecodeError::TruncatedStream));
}

#[test]
fn tree_has_the_least_weighted_path_length() {
    // the textbook distribution: the cheapest code takes 224 bits
    let counts: [(u8, usize); 6] =
        [(b'a', 45), (b'b', 13), (b'c', 12), (b'd', 16), (b'e', 9), (b'f', 5)];
    let mut input = Vec::new();
    for (sym, count) in counts.iter() {
        for _ in 0..*count {
            input.push(*sym);
        }
    }
    let (codes, queue) = build_huffman_encoding(&input).unwrap();
    assert_eq!(codes[&b'a'].len(), 1);
    assert_eq!(codes[&b'b'].len(), 3);
    assert_eq!(codes[&b'c'].len(), 3);
    assert_eq!(codes[&b'd'].len(), 3);
    assert_eq!(codes[&b'e'].len(), 4);
    assert_eq!(codes[&b'f'].len(), 4);
    assert_eq!(queue.peek().unwrap().f, 100);
    let payload = compress(&input);
    assert_eq!(payload.bit_count, 224);
    assert_eq!(decompress(&payload), Ok(input));
}

#[test]
fn tree_in_a_queue_for_nonempty_content() {
    let queue = build_huffman_tree(b"abb");
    assert_eq!(queue.size(), 1);
    let expected = internal(HuffmanNode::single(Some(b'a'), 1), HuffmanNode::single(Some(b'b'), 2));
    assert_eq!(queue.peek(), Some(&expected));
}

fn chain_descriptor(levels: usize) -> Vec<u8> {
    // `levels` internal nodes, each with a missing right subtree, over one leaf
    let mut bytes = vec![0u8; levels];
    bytes.push(1);
    bytes.push(b'x');
    for _ in 0..levels {
        bytes.push(2);
    }
    bytes
}

#[test]
fn descriptors_are_read_up_to_the_greatest_height() {
    let tree = parse_descriptor(&chain_descriptor(3)).unwrap();
    assert_eq!(tree_descriptor(&tree), chain_descriptor(3));
    assert_eq!(decode(&[0b0000_0000], 6, &tree), Ok(b"xx".to_vec()));
    assert!(parse_descriptor(&chain_descriptor(255)).is_ok());
    assert_eq!(parse_descriptor(&chain_descriptor(256)), Err(DecodeError::CorruptTree));
    assert_eq!(parse_descriptor(&vec![0u8; 1_000_000]), Err(DecodeError::CorruptTree));
}

#[test]
fn round_trip_with_a_lopsided_tree() {
    // counts that grow like the Fibonacci numbers give the highest tree
    let mut input = Vec::new();
    let (mut a, mut b) = (1usize, 1usize);
    for sym in 0..24u8 {
        for _ in 0..a {
            input.push(sym);
        }
        let next = a + b;
        a = b;
        b = next;
    }
    let (codes, _) = build_huffman_encoding(&input).unwrap();
    assert_eq!(codes[&0].len(), 23);
    assert_eq!(codes[&23].len(), 1);
    round_trip(&input);
}
