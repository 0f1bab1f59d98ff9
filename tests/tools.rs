use rotund::annotate::{rank_display, rank_glyph};
use rotund::rle::{rl_decode, rl_encode};
use rotund::words::{words_from_le_bytes, words_to_le_bytes};

#[test]
fn rle_pairs_bytes_with_zero_runs() {
    let content = vec![7, 0, 0, 5, 3, 0];
    let code = rl_encode(&content).unwrap();
    assert_eq!(code, vec![7, 2, 5, 0, 3, 1]);
    assert_eq!(rl_decode(&code), content);
}

#[test]
fn rle_long_zero_run_splits() {
    let mut content = vec![9u8];
    content.extend(vec![0u8; 300]);
    let code = rl_encode(&content).unwrap();
    assert_eq!(code, vec![9, 255, 0, 44]);
    assert_eq!(rl_decode(&code), content);
}

#[test]
fn rle_leading_zero_and_empty() {
    assert_eq!(rl_encode(&[0, 0]).unwrap(), vec![0, 1]);
    assert_eq!(rl_encode(&[]), None);
    assert_eq!(rl_decode(&[4, 1, 6]), vec![4, 0]);
}

#[test]
fn glyphs_of_ranks() {
    assert_eq!(rank_glyph(0), b'.');
    assert_eq!(rank_glyph(1), b'1');
    assert_eq!(rank_glyph(9), b'9');
    assert_eq!(rank_glyph(10), b'a');
    assert_eq!(rank_glyph(15), b'f');
    assert_eq!(rank_glyph(16), b'!');
    assert_eq!(rank_glyph(255), b'!');
}

#[test]
fn display_puts_glyph_lines_after_text_lines() {
    let text = b"ab\ncd".to_vec();
    let ranks = vec![0, 3, 12, 1, 40];
    let shown = rank_display(&text, &ranks).unwrap();
    assert_eq!(shown, b" ab\n>.3c\n cd".to_vec());
    assert_eq!(rank_display(&text, &ranks[..2]), None);
}

#[test]
fn words_little_endian() {
    let bytes = vec![0x34, 0x12, 0xff, 0x00, 0x07];
    let words = words_from_le_bytes(&bytes);
    assert_eq!(words, vec![0x1234, 0x00ff]);
    assert_eq!(words_to_le_bytes(&words), vec![0x34, 0x12, 0xff, 0x00]);
}
