use ahi::{Color, Font, Glyph, Image};

#[test]
fn read_font() {
    let input: &[u8] = b"ahf0 h3 b2 n2\n\
        \n\
        def w3 l0 r4\n\
        101\n\
        010\n\
        101\n\
        \n\
        '|' w1 l0 r2\n\
        1\n\
        1\n\
        1\n\
        \n\
        '\\u{2603}' w2 l0 r4\n\
        11\n\
        11\n\
        00\n";
    let font = Font::read(input).expect("failed to read font");
    assert_eq!(font.glyph_height(), 3);
    assert_eq!(font.baseline(), 2);
    assert_eq!(font.default_glyph().image().width(), 3);
    assert_eq!(font.default_glyph().left_edge(), 0);
    assert_eq!(font.default_glyph().right_edge(), 4);
    assert_eq!(font.glyph('|').image().width(), 1);
    assert_eq!(font.chars().len(), 2);
}

#[test]
fn write_font() {
    let mut font = Font::with_glyph_height(3);
    font.set_baseline(2);

    let mut img_default = Image::new(3, 3);
    img_default.set_pixel(0, 0, Color::C1);
    img_default.set_pixel(2, 0, Color::C1);
    img_default.set_pixel(1, 1, Color::C1);
    img_default.set_pixel(0, 2, Color::C1);
    img_default.set_pixel(2, 2, Color::C1);
    font.set_default_glyph(Glyph::new(img_default, 0, 4));

    let mut img_snowman = Image::new(2, 3);
    img_snowman.set_pixel(0, 0, Color::C1);
    img_snowman.set_pixel(1, 0, Color::C1);
    img_snowman.set_pixel(0, 1, Color::C1);
    img_snowman.set_pixel(1, 1, Color::C1);
    font.set_char_glyph('\u{2603}', Glyph::new(img_snowman, 0, 4));

    let mut img_vbar = Image::new(1, 3);
    img_vbar.set_pixel(0, 0, Color::C1);
    img_vbar.set_pixel(0, 1, Color::C1);
    img_vbar.set_pixel(0, 2, Color::C1);
    font.set_char_glyph('|', Glyph::new(img_vbar, 0, 2));

    let mut output = Vec::<u8>::new();
    font.write(&mut output).expect("failed to write font");
    let mut expected = Vec::<u8>::new();
    expected.extend_from_slice(
        b"ahf0 h3 b2 n2\n\
        \n\
        def w3 l0 r4\n\
        101\n\
        010\n\
        101\n\
        \n\
        '|' w1 l0 r2\n\
        1\n\
        1\n\
        1\n\
        \n\
        '\\u{2603}' w2 l0 r4\n\
        11\n\
        11\n\
        00\n",
    );
    assert_eq!(output, expected);
}

#[test]
fn font_round_trip() {
    let mut font = Font::with_glyph_height(3);
    font.set_baseline(2);
    let mut img_default = Image::new(1, 3);
    img_default.set_pixel(0, 1, Color::C1);
    font.set_default_glyph(Glyph::new(img_default, -1, 2));
    let mut img_vbar = Image::new(1, 3);
    img_vbar.set_pixel(0, 0, Color::C1);
    img_vbar.set_pixel(0, 1, Color::C1);
    img_vbar.set_pixel(0, 2, Color::C1);
    font.set_char_glyph('|', Glyph::new(img_vbar, 0, 2));

    let mut output = Vec::<u8>::new();
    font.write(&mut output).unwrap();
    let back = Font::read(&output).expect("failed to read font back");
    assert_eq!(back.baseline(), 2);
    assert_eq!(back.glyph_height(), 3);
    assert_eq!(back.default_glyph().left_edge(), -1);
    assert_eq!(back.default_glyph().right_edge(), 2);
    assert_eq!(back.default_glyph().image().get_pixel(0, 1).unwrap(), Color::C1);
    assert_eq!(back.default_glyph().image().get_pixel(0, 0).unwrap(), Color::C0);
    let bar = back.glyph('|');
    assert_eq!(bar.left_edge(), 0);
    assert_eq!(bar.right_edge(), 2);
    assert_eq!(bar.image().get_pixel(0, 2).unwrap(), Color::C1);
    assert_eq!(back.chars(), vec!['|']);
}

#[test]
fn glyph_table_updates() {
    let mut font = Font::with_glyph_height(1);
    font.set_char_glyph('b', Glyph::new(Image::new(2, 1), 0, 2));
    font.set_char_glyph('a', Glyph::new(Image::new(3, 1), 0, 3));
    font.set_char_glyph('b', Glyph::new(Image::new(4, 1), 0, 4));
    assert_eq!(font.chars(), vec!['a', 'b']);
    assert_eq!(font.get_char_glyph('b').unwrap().image().width(), 4);
    assert_eq!(font.get_char_glyph('a').unwrap().image().width(), 3);
    assert!(font.get_char_glyph('c').is_none());
    assert_eq!(font.glyph('c').image().width(), 0);
    font.remove_char_glyph('a');
    assert_eq!(font.chars(), vec!['b']);
    assert!(font.get_char_glyph('a').is_none());
}
