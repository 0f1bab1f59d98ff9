use bit_vec::BitVec;
use rotund::error::CodecError;
use rotund::huffman::{count_freqs, decode, encode, HuffmanNode, NodeType};

fn show<X: std::fmt::Debug>(t: &HuffmanNode<X>) -> String {
    match &t.node_type {
        NodeType::Leaf(symbol) => format!("_{:?}_", symbol),
        NodeType::Internal(a, b) => format!("({},{})", show(a), show(b)),
    }
}

fn code_len<X: PartialEq>(t: &HuffmanNode<X>, s: &X) -> Option<usize> {
    match &t.node_type {
        NodeType::Leaf(x) => {
            if x == s {
                Some(0)
            } else {
                None
            }
        }
        NodeType::Internal(a, b) => code_len(a, s).or(code_len(b, s)).map(|d| d + 1),
    }
}

fn weights8(pairs: &[(u8, usize)]) -> Vec<usize> {
    let mut w = vec![0usize; 256];
    for &(s, n) in pairs {
        w[s as usize] = n;
    }
    w
}

#[test]
fn tree_writevec_readvec() {
    let input: Vec<u16> = vec![3, 1, 4, 1, 5, 9];
    let freqs = count_freqs(&input).unwrap();
    let tree_a: HuffmanNode<u16> = HuffmanNode::from_weights(&freqs).unwrap();

    let bitv = tree_a.to_bits().to_bytes();

    let tree_b: HuffmanNode<u16> = HuffmanNode::from_bytes(&bitv).unwrap();

    let str_a = show(&tree_a);
    let str_b = show(&tree_b);
    assert_eq!(str_a, str_b);
    assert_eq!(str_a, "(_1_,((_4_,_3_),(_9_,_5_)))");
}

#[test]
fn huffman_encode_decode() {
    let input_vec: Vec<u16> = vec![3, 1, 4, 1, 5, 9];
    let freqs = count_freqs(&input_vec).unwrap();
    let tree: HuffmanNode<u16> = HuffmanNode::from_weights(&freqs).unwrap();

    let edict = tree.encoding_dictionary();

    let compressed = encode(&input_vec, &edict).unwrap();

    let output_vec = decode(&compressed, tree).unwrap();
    assert_eq!(input_vec, output_vec);
}

#[test]
fn abracadabra_round_trip() {
    let input = b"abracadabra".to_vec();
    let freqs = count_freqs(&input).unwrap();
    assert_eq!(freqs[b'a' as usize], 5);
    assert_eq!(freqs[b'b' as usize], 2);
    assert_eq!(freqs[b'r' as usize], 2);
    assert_eq!(freqs[b'c' as usize], 1);
    assert_eq!(freqs[b'd' as usize], 1);
    assert_eq!(freqs.iter().sum::<usize>(), 11);
    let tree: HuffmanNode<u8> = HuffmanNode::from_weights(&freqs).unwrap();
    assert_eq!(tree.weight, 11);
    let edict = tree.encoding_dictionary();
    let compressed = encode(&input, &edict).unwrap();
    assert_eq!(decode(&compressed, tree).unwrap(), input);
}

#[test]
fn words16_tree_bits_round_trip() {
    let input: Vec<u16> = vec![3, 1, 4, 1, 5, 9];
    let freqs = count_freqs(&input).unwrap();
    assert_eq!(freqs.len(), 65536);
    let tree: HuffmanNode<u16> = HuffmanNode::from_weights(&freqs).unwrap();
    let bits = tree.to_bits();
    // Five leaves of 17 bits and three inner nodes of 1 bit below the root.
    assert_eq!(bits.len(), 5 * 17 + 3);
    let back: HuffmanNode<u16> = HuffmanNode::from_bits(&bits).unwrap();
    assert_eq!(show(&back), show(&tree));
    let mut padded = bits.clone();
    padded.push(false);
    padded.push(true);
    let back2: HuffmanNode<u16> = HuffmanNode::from_bits(&padded).unwrap();
    assert_eq!(show(&back2), show(&tree));
    let edict = tree.encoding_dictionary();
    let compressed = encode(&input, &edict).unwrap();
    assert_eq!(decode(&compressed, back).unwrap(), input);
}

#[test]
fn single_symbol_gets_one_bit_code() {
    let input: Vec<u8> = vec![0, 0, 0, 0, 0, 0, 0, 0];
    let freqs = count_freqs(&input).unwrap();
    let tree: HuffmanNode<u8> = HuffmanNode::from_weights(&freqs).unwrap();
    assert_eq!(show(&tree), "(_1_,_0_)");
    assert_eq!(tree.weight, 8);
    assert_eq!(code_len(&tree, &0u8), Some(1));
    let edict = tree.encoding_dictionary();
    let compressed = encode(&input, &edict).unwrap();
    // Eight one-bit codes fill one byte, then the count byte says 8.
    assert_eq!(compressed, vec![0xff, 8]);
    assert_eq!(decode(&compressed, tree).unwrap(), input);
}

#[test]
fn weights_one_one_two() {
    let w = weights8(&[(b'a', 1), (b'b', 1), (b'c', 2)]);
    let tree: HuffmanNode<u8> = HuffmanNode::from_weights(&w).unwrap();
    assert_eq!(code_len(&tree, &b'c'), Some(1));
    assert_eq!(code_len(&tree, &b'a'), Some(2));
    assert_eq!(code_len(&tree, &b'b'), Some(2));
    assert_eq!(show(&tree), "((_98_,_97_),_99_)");
    let edict = tree.encoding_dictionary();
    // b = 00, a = 01, c = 1: "abc" is 01 00 1, then the count byte 5.
    let compressed = encode(&b"abc".to_vec(), &edict).unwrap();
    assert_eq!(compressed, vec![0b0100_1000, 5]);
}

#[test]
fn heavier_symbols_get_shorter_codes() {
    let w = weights8(&[(1, 40), (2, 3), (3, 7), (4, 1), (5, 20), (6, 7), (7, 2), (8, 12)]);
    let tree: HuffmanNode<u8> = HuffmanNode::from_weights(&w).unwrap();
    for s in 1..=8u8 {
        for t in 1..=8u8 {
            if w[s as usize] > w[t as usize] {
                assert!(code_len(&tree, &s).unwrap() <= code_len(&tree, &t).unwrap());
            }
        }
    }
}

#[test]
fn empty_weights_fail() {
    let w = vec![0usize; 256];
    assert!(matches!(HuffmanNode::<u8>::from_weights(&w), Err(CodecError::EmptyInput)));
}

#[test]
fn symbol_not_in_dictionary() {
    let freqs = count_freqs(&b"ab".to_vec()).unwrap();
    let tree: HuffmanNode<u8> = HuffmanNode::from_weights(&freqs).unwrap();
    let edict = tree.encoding_dictionary();
    assert_eq!(encode(&b"abc".to_vec(), &edict), Err(CodecError::SymbolNotInDictionary));
}

#[test]
fn decode_truncated_and_invalid_streams() {
    let w = weights8(&[(b'a', 1), (b'b', 1), (b'c', 2)]);
    let tree: HuffmanNode<u8> = HuffmanNode::from_weights(&w).unwrap();
    // One bit 0 leads to an inner node and then the bits run out.
    assert_eq!(decode(&[0x00, 1], tree), Err(CodecError::TruncatedStream));
    let tree: HuffmanNode<u8> = HuffmanNode::from_weights(&w).unwrap();
    assert_eq!(decode(&[0x00, 9], tree), Err(CodecError::InvalidStream));
    let tree: HuffmanNode<u8> = HuffmanNode::from_weights(&w).unwrap();
    assert_eq!(decode(&[8], tree), Ok(Vec::new()));
}

#[test]
fn empty_sequence_round_trip() {
    let w = weights8(&[(b'x', 3), (b'y', 1)]);
    let tree: HuffmanNode<u8> = HuffmanNode::from_weights(&w).unwrap();
    let edict = tree.encoding_dictionary();
    let compressed = encode(&Vec::<u8>::new(), &edict).unwrap();
    assert_eq!(compressed, vec![8]);
    assert_eq!(decode(&compressed, tree).unwrap(), Vec::<u8>::new());
}

#[test]
fn tree_bytes_are_packed_bits() {
    let w = weights8(&[(0x0f, 1), (0xf0, 1)]);
    let tree: HuffmanNode<u8> = HuffmanNode::from_weights(&w).unwrap();
    // Leaves 0xf0 then 0x0f: 1 11110000 1 00001111, zero-padded.
    assert_eq!(show(&tree), "(_240_,_15_)");
    assert_eq!(tree.to_bytes(), vec![0b1111_1000, 0b0100_0011, 0b1100_0000]);
    let back: HuffmanNode<u8> = HuffmanNode::from_bytes(&tree.to_bytes()).unwrap();
    assert_eq!(show(&back), show(&tree));
    assert_eq!(back.weight, 0);
}

#[test]
fn tree_from_short_bits_fails() {
    let bits = BitVec::from_bytes(&[0b1111_1000]);
    assert!(matches!(HuffmanNode::<u8>::from_bits(&bits), Err(CodecError::TruncatedStream)));
}

#[test]
fn merged_node_weighs_both() {
    let w = weights8(&[(1, 5), (2, 6)]);
    let a: HuffmanNode<u8> = HuffmanNode::from_weights(&w).unwrap();
    let b: HuffmanNode<u8> = HuffmanNode::from_weights(&w).unwrap();
    let n = HuffmanNode::new(a, b);
    assert_eq!(n.weight, 22);
    assert!(!n.is_leaf());
}

#[test]
fn count_freqs_of_empty_input_fails() {
    assert_eq!(count_freqs(&Vec::<u8>::new()), Err(CodecError::EmptyInput));
    assert_eq!(count_freqs(&Vec::<u16>::new()), Err(CodecError::EmptyInput));
}
