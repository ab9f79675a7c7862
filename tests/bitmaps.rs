use mison::bitwise;
use mison::{LiteralChars, StringMask, StructuralChars};

#[test]
fn test_literal_chars() {
    let json = r#"{"id":"Apn5Q_b","name":"Minhas \"Micro\" Brewery","attributes":{"BikeParking":"False"}}"#;
    let bitmaps = LiteralChars::build(&json.as_bytes());

    assert_eq!(
        bitmaps.backslash,
        [
            0b10000000000000000000000000000000,
            0b00000000000000000000000001000000,
            0b00000000000000000000000000000000,
        ]
    );

    assert_eq!(
        bitmaps.quote,
        [
            0b00000000101000010100000001010010,
            0b00100000000001010000000010000001,
            0b00000000000100000101000000000001,
        ]
    );

    assert_eq!(
        bitmaps.colon,
        [
            0b00000000010000000000000000100000,
            0b01000000000000000000000000000000,
            0b00000000000000000010000000000000,
        ]
    );

    assert_eq!(
        bitmaps.left_brace,
        [
            0b00000000000000000000000000000001,
            0b10000000000000000000000000000000,
            0b00000000000000000000000000000000,
        ]
    );

    assert_eq!(
        bitmaps.right_brace,
        [
            0b00000000000000000000000000000000,
            0b00000000000000000000000000000000,
            0b00000000011000000000000000000000,
        ]
    );
}

#[test]
fn test_structural_chars() {
    let json = r#"{"id":"Apn5Q_b","name":"Minhas \"Micro\" Brewery","attributes":{"BusinessParking":"{\"garage\":false}"}}"#;
    let bitmaps = StructuralChars::build(&json.as_bytes());

    assert_eq!(
        bitmaps.quote,
        [
            0b00000000101000010100000001010010,
            0b00100000000001010000000000000000,
            0b00000000000001010000000000000001,
            0b00000000000000000000000000100000,
        ]
    );
}

#[test]
fn test_string_mask() {
    let quote = [
        0b00000000101000010100000001010010,
        0b00100000000001010000000000000000,
        0b00000000000001010000000000000001,
        0b00000000000000000000000000100000,
    ];

    let colon = [
        0b00000000000000001000000000100000,
        0b01000000000000000000000000000000,
        0b01000000000000100000000000000000,
        0b00000000000000000000000000000000,
    ];

    let string_mask = StringMask::build(&quote);

    assert_eq!(
        string_mask.mask,
        [
            0b11111111000111100011111110001100,
            0b00011111111110001111111111111111,
            0b11111111111110001111111111111110,
            0b00000000000000000000000000011111,
        ]
    );

    assert_eq!(
        string_mask.apply(&colon),
        [
            0b00000000000000001000000000100000,
            0b01000000000000000000000000000000,
            0b00000000000000100000000000000000,
            0b00000000000000000000000000000000,
        ]
    );
}

#[test]
fn test_bitwise_remove() {
    assert_eq!(bitwise::remove(0), 0);
    assert_eq!(bitwise::remove(0b1), 0);
    assert_eq!(bitwise::remove(0b11101000), 0b11100000);
}

#[test]
fn test_bitwise_extract() {
    assert_eq!(bitwise::extract(0), 0);
    assert_eq!(bitwise::extract(0b100), 0b100);
    assert_eq!(bitwise::extract(0b11101000), 0b00001000);
    assert_eq!(
        bitwise::extract(0b10000000000000000000000000000100),
        0b00000000000000000000000000000100
    );
    assert_eq!(
        bitwise::extract(0b10000000000000000000000000000000),
        0b10000000000000000000000000000000
    );
}

#[test]
fn test_bitwise_smear() {
    assert_eq!(bitwise::smear(0), 0);
    assert_eq!(bitwise::smear(0b1), 0b1);
    assert_eq!(bitwise::smear(0b1000), 0b1111);
    assert_eq!(bitwise::smear(0b11101000), 0b00001111);
}
