use mison::bitmaps::char_bitmap;
use mison::record::key_span_before;
use mison::{LeveledColons, LiteralChars, StringMask, StructuralChars};

fn bit(words: &[u32], p: usize) -> bool {
    (words[p / 32] >> (p % 32)) & 1 == 1
}

#[test]
fn char_bitmap_marks_exactly_the_character() {
    let json = br#"{"a":1,"bb":{"c":2}}"#;
    let colon = char_bitmap(json, b':');
    assert_eq!(colon.len(), 1);
    for p in 0..32 {
        assert_eq!(bit(&colon, p), p < json.len() && json[p] == b':');
    }
}

#[test]
fn char_bitmap_of_empty_input_has_no_words() {
    assert!(char_bitmap(b"", b':').is_empty());
    assert_eq!(LiteralChars::build(b"").quote.len(), 0);
}

#[test]
fn char_bitmap_word_count_rounds_up() {
    assert_eq!(char_bitmap(&[b'x'; 32], b'x'), vec![0xffff_ffff]);
    assert_eq!(char_bitmap(&[b'x'; 33], b'x'), vec![0xffff_ffff, 1]);
}

#[test]
fn padding_with_zeros_keeps_the_word_prefix() {
    let json = br#"{"name":"Joe","stars":4.5}"#.to_vec();
    let mut padded = json.clone();
    padded.extend_from_slice(&[0u8; 40]);
    let a = LiteralChars::build(&json);
    let b = LiteralChars::build(&padded);
    assert_eq!(a.quote.len(), 1);
    assert_eq!(b.quote.len(), 3);
    assert_eq!(a.quote[..], b.quote[..1]);
    assert_eq!(a.colon[..], b.colon[..1]);
    assert_eq!(a.right_brace[..], b.right_brace[..1]);
}

#[test]
fn masking_twice_equals_masking_once() {
    let quote = [0b0100_0010u32, 0b1];
    let colon = [0b1011_1100u32, 0b11];
    let mask = StringMask::build(&quote);
    let once = mask.apply(&colon);
    let twice = mask.apply(&once);
    assert_eq!(once, twice);
    assert_eq!(once, vec![0b1000_0000, 0b01]);
}

#[test]
fn string_mask_carries_across_words() {
    let mask = StringMask::build(&[1u32 << 31, 1]);
    assert_eq!(mask.mask, vec![0, 0]);
    let mask = StringMask::build(&[1u32 << 30, 1 << 2]);
    assert_eq!(mask.mask, vec![1u32 << 31, 0b011]);
}

fn lane_boundary_record(backslashes: usize) -> Vec<u8> {
    let mut json = br#"{"k":""#.to_vec();
    while json.len() + backslashes < 32 {
        json.push(b'a');
    }
    for _ in 0..backslashes {
        json.push(b'\\');
    }
    json.push(b'"');
    json.extend_from_slice(br#"b","z":1}"#);
    json
}

#[test]
fn escaped_quote_across_lane_boundary() {
    let json = lane_boundary_record(1);
    assert_eq!(json[31], b'\\');
    assert_eq!(json[32], b'"');
    let chars = StructuralChars::build(&json);
    assert!(!bit(&chars.quote, 32));
    let index = LeveledColons::build(&json, 1);
    assert_eq!(index.positions(0), vec![4, 39]);
}

#[test]
fn double_backslash_before_quote_across_lane_boundary() {
    let mut json = br#"{"k":""#.to_vec();
    while json.len() < 31 {
        json.push(b'a');
    }
    json.extend_from_slice(br#"\\"#);
    json.extend_from_slice(br#"","z":1}"#);
    assert_eq!(json[31], b'\\');
    assert_eq!(json[32], b'\\');
    assert_eq!(json[33], b'"');
    let chars = StructuralChars::build(&json);
    assert!(bit(&chars.quote, 33));
    let index = LeveledColons::build(&json, 1);
    assert_eq!(index.positions(0), vec![4, 38]);
}

#[test]
fn triple_backslash_escapes_the_quote() {
    let json = br#"{"k":"a\\\"b"}"#;
    let chars = StructuralChars::build(json);
    assert_eq!(chars.quote, vec![(1 << 1) | (1 << 3) | (1 << 5) | (1 << 12)]);
}

#[test]
fn colons_inside_strings_are_masked() {
    let json = br#"{"s":"a:b","k":7}"#;
    let chars = StructuralChars::build(json);
    assert_eq!(chars.colon, vec![(1 << 4) | (1 << 14)]);
    let index = LeveledColons::build(json, 2);
    assert_eq!(index.positions(0), vec![4, 14]);
    assert!(index.positions(1).is_empty());
}

#[test]
fn braces_inside_strings_are_masked() {
    let json = br#"{"a":"{x}","b":1}"#;
    let chars = StructuralChars::build(json);
    assert_eq!(chars.left_brace, vec![1]);
    assert_eq!(chars.right_brace, vec![1 << 16]);
}

#[test]
fn brace_pair_within_one_word() {
    let json = br#"{"a":{"b":1},"c":2}"#;
    let index = LeveledColons::build(json, 2);
    assert_eq!(index.positions(0), vec![4, 16]);
    assert_eq!(index.positions(1), vec![9]);
}

#[test]
fn brace_pair_spanning_many_words() {
    let mut json = br#"{"a":{"b":1"#.to_vec();
    json.extend(std::iter::repeat(b' ').take(100));
    json.extend_from_slice(br#","d":{"e":3}},"c":2}"#);
    let index = LeveledColons::build(&json, 3);
    let c = json.len() - 3;
    let d = 11 + 100 + 4;
    assert_eq!(json[c], b':');
    assert_eq!(json[d], b':');
    assert_eq!(index.positions(0), vec![4, c]);
    assert_eq!(index.positions(1), vec![9, d]);
    assert_eq!(index.positions(2), vec![d + 5]);
}

#[test]
fn inner_object_colons_stay_off_level_zero() {
    let json = br#"{"a":{"b":1,"c":{"d":2}},"e":3}"#;
    let index = LeveledColons::build(json, 3);
    assert_eq!(index.positions(0), vec![4, 28]);
    assert_eq!(index.positions(1), vec![9, 15]);
    assert_eq!(index.positions(2), vec![20]);
}

#[test]
fn levels_are_disjoint_and_ascending() {
    let json = br#"{"a":{"b":1,"c":{"d":2}},"e":3,"f":{"g":4}}"#;
    let index = LeveledColons::build(json, 3);
    let mut all: Vec<usize> = Vec::new();
    for d in 0..3 {
        let pos = index.positions(d);
        for w in pos.windows(2) {
            assert!(w[0] < w[1]);
        }
        for p in &pos {
            assert_eq!(json[*p], b':');
            assert!(!all.contains(p));
        }
        all.extend(pos);
    }
    all.sort();
    let colons: Vec<usize> = (0..json.len()).filter(|&p| json[p] == b':').collect();
    assert_eq!(all, colons);
}

#[test]
fn flat_record_has_all_colons_on_level_zero() {
    let json = b"{a:1,b:2,c:3}";
    let index = LeveledColons::build(json, 3);
    assert_eq!(index.positions(0), vec![2, 6, 10]);
    assert!(index.positions(1).is_empty());
    assert!(index.positions(2).is_empty());
}

#[test]
fn empty_record_has_no_colons() {
    let index = LeveledColons::build(b"{}", 2);
    assert!(index.positions(0).is_empty());
    assert!(index.positions(1).is_empty());
}

#[test]
fn positions_of_a_level_not_built_are_empty() {
    let index = LeveledColons::build(br#"{"a":1}"#, 1);
    assert_eq!(index.positions(0), vec![4]);
    assert!(index.positions(1).is_empty());
}

#[test]
fn colons_outside_the_record_are_ignored() {
    let index = LeveledColons::build(br#"{"a":1} :"#, 1);
    assert_eq!(index.positions(0), vec![4]);
}

#[test]
fn key_span_skips_whitespace() {
    let json = br#"{"ab" 	: 1}"#;
    assert_eq!(key_span_before(json, 7), Some((2, 4)));
}

#[test]
fn key_span_with_escaped_quote_inside() {
    let json = br#"{"a\"b":1}"#;
    assert_eq!(key_span_before(json, 7), Some((2, 6)));
}

#[test]
fn key_span_ending_in_escaped_backslash() {
    let json = br#"{"k\\":1}"#;
    assert_eq!(key_span_before(json, 6), Some((2, 5)));
}

#[test]
fn key_span_missing_quote() {
    assert_eq!(key_span_before(b"{a:1}", 2), None);
    assert_eq!(key_span_before(br#"{a":1}"#, 3), None);
    assert_eq!(key_span_before(b":", 0), None);
}

#[test]
fn unmatched_closing_brace_is_reported() {
    let index = LeveledColons::build(br#"}{"a":1}"#, 1);
    assert!(index.unmatched());
    assert!(LeveledColons::build(br#"{"a":1}}"#, 1).unmatched());
    assert!(!LeveledColons::build(br#"{"a":{"b":"}"}}"#, 2).unmatched());
    assert!(!LeveledColons::build(br#"{"a":1"#, 1).unmatched());
}

#[test]
fn string_mask_leaves_quotes_out() {
    let json = br#"{"ab":"c"}"#;
    let chars = StructuralChars::build(json);
    let mask = StringMask::build(&chars.quote);
    assert_eq!(mask.mask, vec![(1 << 2) | (1 << 3) | (1 << 7)]);
}
