use rotund::error::CodecError;
use rotund::prob::{decode, encode, RotundHelper};

#[test]
fn prob_encode_decode() {
    let input = b"This is a simple text for encoding this and that information.".to_vec();
    let mut reversed = input.clone();
    reversed.reverse();
    let encoded = encode(reversed).unwrap();
    let expected = "This i\0\0b sinple text!ior iocoeiog \u{5}h\0\0\0\u{1}ne!\u{1}\u{1}bt\u{1}\u{4}\u{2}g\0\0mb\u{2}ipo2";
    assert_eq!(expected, String::from_utf8(encoded.clone()).unwrap());
    let mut output = decode(&encoded).unwrap();
    output.reverse();
    assert_eq!(String::from_utf8(input).unwrap(), String::from_utf8(output).unwrap())
}

#[test]
fn rotund_single_byte() {
    assert_eq!(encode(vec![0x7a]).unwrap(), vec![0x7a]);
    assert_eq!(decode(&[0x7a]).unwrap(), vec![0x7a]);
}

#[test]
fn rotund_two_equal_bytes() {
    let ranks = encode(vec![0x41, 0x41]).unwrap();
    assert_eq!(ranks, vec![0x41, 65]);
    assert_eq!(decode(&ranks).unwrap(), vec![0x41, 0x41]);
}

#[test]
fn rotund_empty_input() {
    assert_eq!(encode(Vec::new()), Err(CodecError::EmptyInput));
    assert_eq!(decode(&[]), Err(CodecError::EmptyInput));
}

#[test]
fn rotund_round_trip_mixed() {
    let inputs: Vec<Vec<u8>> = vec![
        b"abracadabra".to_vec(),
        vec![0, 0, 0, 0, 0],
        vec![255, 0, 255, 0, 1, 2, 3, 255],
        (0..=255u8).collect(),
        b"the theme of the thesis is the theory".to_vec(),
    ];
    for s in inputs {
        let ranks = encode(s.clone()).unwrap();
        assert_eq!(ranks.len(), s.len());
        assert_eq!(decode(&ranks).unwrap(), s);
    }
}

#[test]
fn rotund_ranks_depend_on_suffix_only() {
    let a = b"xyzzy and the same tail".to_vec();
    let b = b"QQ the same tail".to_vec();
    let k = b" the same tail".len();
    let ra = encode(a).unwrap();
    let rb = encode(b).unwrap();
    assert_eq!(ra[..k], rb[..k]);
}

#[test]
fn rotund_is_deterministic() {
    let s = b"determinism is a hard contract".to_vec();
    assert_eq!(encode(s.clone()).unwrap(), encode(s).unwrap());
}

#[test]
fn rotund_predicts_repeated_context() {
    // The last byte is kept; "b" and "ab" give no match, so those ranks are
    // the byte values; in "bab" the first byte 'b' recurs after 'a', so 'a'
    // is ranked first.
    let ranks = encode(b"abab".to_vec()).unwrap();
    assert_eq!(ranks, vec![b'b', 97, 98, 0]);
}

#[test]
fn ranker_is_a_function_of_the_suffix() {
    let a = RotundHelper::new(b"xxxxthe suffix matters".to_vec());
    let b = RotundHelper::new(b"yythe suffix matters".to_vec());
    assert_eq!(a.make_rotund(4), b.make_rotund(2));
    assert_eq!(a.make_rotund(10), b.make_rotund(8));
}

#[test]
fn ranker_orders_by_match_then_byte() {
    let h = RotundHelper::new(b"bab".to_vec());
    let rot = h.make_rotund(0);
    assert_eq!(rot.len(), 256);
    assert_eq!(rot[0], b'a');
    let mut rest: Vec<u8> = (0..=255u8).filter(|&x| x != b'a').collect();
    rest.insert(0, b'a');
    assert_eq!(rot, rest);
    let one = RotundHelper::new(vec![0x41]);
    assert_eq!(one.make_rotund(0), (0..=255u8).collect::<Vec<u8>>());
}
