use ahi::{Collection, Error, Font};

#[test]
fn truncated_input_is_rejected() {
    assert_eq!(Collection::read(b"ah").unwrap_err(), Error::UnexpectedEnd);
    assert_eq!(Collection::read(b"ahi0 w2 h2 n1\n\n2").unwrap_err(), Error::UnexpectedEnd);
}

#[test]
fn wrong_keyword_is_rejected() {
    assert_eq!(Collection::read(b"xhi0 w0 h0 n0\n").unwrap_err(), Error::UnexpectedToken);
    assert_eq!(Font::read(b"ahi0 w0 h0 n0\n").unwrap_err(), Error::UnexpectedToken);
}

#[test]
fn empty_header_field_is_rejected() {
    assert_eq!(Collection::read(b"ahi w0 h0 n0\n").unwrap_err(), Error::MissingDigits);
}

#[test]
fn misplaced_sign_is_rejected() {
    assert_eq!(Collection::read(b"ahi0 w5-2 h0 n0\n").unwrap_err(), Error::MisplacedSign);
    assert_eq!(Collection::read(b"ahi0 w--1 h0 n0\n").unwrap_err(), Error::MisplacedSign);
}

#[test]
fn stray_byte_in_number_is_rejected() {
    assert_eq!(Collection::read(b"ahi0 wx h0 n0\n").unwrap_err(), Error::InvalidDigit(b'x'));
}

#[test]
fn oversized_header_value_is_rejected() {
    assert_eq!(Collection::read(b"ahi0 w99999 h0 n0\n").unwrap_err(), Error::ValueTooLarge);
}

#[test]
fn negative_count_is_rejected() {
    assert_eq!(Collection::read(b"ahi0 w-1 h0 n0\n").unwrap_err(), Error::NegativeNotAllowed);
}

#[test]
fn empty_flag_field_is_rejected() {
    assert_eq!(Collection::read(b"ahi1 f p0 i0 w0 h0\n").unwrap_err(), Error::MissingHexLiteral);
}

#[test]
fn oversized_flag_field_is_rejected() {
    assert_eq!(
        Collection::read(b"ahi1 f123456789 p0 i0 w0 h0\n").unwrap_err(),
        Error::HexLiteralTooLarge
    );
}

#[test]
fn oversized_palette_field_is_rejected() {
    assert_eq!(
        Collection::read(b"ahi1 f0 p1 i0 w0 h0\n\n123456789;0;0;0;0;0;0;0;0;0;0;0;0;0;0;0\n")
            .unwrap_err(),
        Error::TooManyPaletteDigits
    );
}

#[test]
fn bad_pixel_character_is_rejected() {
    assert_eq!(
        Collection::read(b"ahi0 w1 h1 n1\n\nX\n").unwrap_err(),
        Error::InvalidPixelCharacter(b'X')
    );
    assert_eq!(
        Collection::read(b"ahi0 w1 h1 n1\n\na\n").unwrap_err(),
        Error::InvalidPixelCharacter(b'a')
    );
}

#[test]
fn bad_escape_is_rejected() {
    assert_eq!(
        Collection::read(b"ahi1 f2 p0 i1 w1 h1\n\n\"\\x\"\n0\n").unwrap_err(),
        Error::InvalidCharEscape(b'x')
    );
}

#[test]
fn control_byte_in_tag_is_rejected() {
    let mut input = Vec::new();
    input.extend_from_slice(b"ahi1 f2 p0 i1 w1 h1\n\n\"");
    input.push(1);
    input.extend_from_slice(b"\"\n0\n");
    assert_eq!(Collection::read(&input).unwrap_err(), Error::InvalidCharLiteralByte(1));
}

#[test]
fn surrogate_escape_is_rejected() {
    assert_eq!(
        Collection::read(b"ahi1 f2 p0 i1 w1 h1\n\n\"\\u{D800}\"\n0\n").unwrap_err(),
        Error::InvalidUnicodeScalar(0xD800)
    );
}

#[test]
fn empty_char_literal_is_rejected() {
    let input: &[u8] = b"ahf0 h1 b1 n1\n\
        \n\
        def w0 l0 r0\n\
        \n\
        '' w0 l0 r0\n";
    assert_eq!(Font::read(input).unwrap_err(), Error::EmptyCharLiteral);
}

#[test]
fn out_of_range_list_integer_is_rejected() {
    assert_eq!(
        Collection::read(b"ahi1 f4 p0 i1 w1 h1\n\n[40000]\n0\n").unwrap_err(),
        Error::ListIntegerOutOfRange
    );
    assert_eq!(
        Collection::read(b"ahi1 f4 p0 i1 w1 h1\n\n[32768]\n0\n").unwrap_err(),
        Error::ListIntegerOutOfRange
    );
}

#[test]
fn unknown_version_is_rejected() {
    assert_eq!(Collection::read(b"ahi2 w0 h0 n0\n").unwrap_err(), Error::UnsupportedVersion(2));
    assert_eq!(Font::read(b"ahf1 h1 b1 n0\n").unwrap_err(), Error::UnsupportedVersion(1));
}

#[test]
fn extreme_list_integers_round_trip() {
    let input: &[u8] = b"ahi1 f4 p0 i1 w1 h1\n\n[-32768, 32767]\n0\n";
    let collection = Collection::read(input).unwrap();
    assert_eq!(collection.images[0].metadata(), &[-32768, 32767]);
}
