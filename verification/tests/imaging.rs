use ahi::{Color, Image, Palette};

#[test]
fn color_byte_round_trip() {
    let colors = [
        Color::C0,
        Color::C1,
        Color::C2,
        Color::C3,
        Color::C4,
        Color::C5,
        Color::C6,
        Color::C7,
        Color::C8,
        Color::C9,
        Color::Ca,
        Color::Cb,
        Color::Cc,
        Color::Cd,
        Color::Ce,
        Color::Cf,
    ];
    for &color in colors.iter() {
        assert_eq!(Color::from_byte(color.to_byte()).unwrap(), color);
    }
}

#[test]
fn color_rejects_other_bytes() {
    assert!(Color::from_byte(b'G').is_err());
    assert!(Color::from_byte(b'a').is_err());
    assert!(Color::from_byte(b'f').is_err());
    assert!(Color::from_byte(b' ').is_err());
    assert!(Color::from_byte(b'/').is_err());
    assert!(Color::from_byte(b':').is_err());
}

#[test]
fn image_rgba_data() {
    let mut image = Image::new(2, 2);
    image.set_pixel(0, 0, Color::C2);
    image.set_pixel(0, 1, Color::C5);
    image.set_pixel(1, 1, Color::Cd);
    assert_eq!(
        image.rgba_data(&Palette::default()),
        vec![127, 0, 0, 255, 0, 0, 0, 0, 0, 255, 0, 255, 0, 255, 255, 255]
    );
}

#[test]
fn clear_image() {
    let mut image = Image::new(2, 2);
    image.set_pixel(1, 0, Color::C2);
    image.set_pixel(1, 1, Color::C5);
    image.clear();
    assert_eq!(image.get_pixel(1, 0).unwrap(), Color::C0);
    assert_eq!(image.get_pixel(1, 1).unwrap(), Color::C0);
}

#[test]
fn flip_image_horz() {
    let mut image = Image::new(2, 2);
    image.set_pixel(0, 1, Color::C3);
    image.set_pixel(1, 1, Color::C5);
    let image = image.flip_horz();
    assert_eq!(image.get_pixel(0, 1).unwrap(), Color::C5);
    assert_eq!(image.get_pixel(1, 1).unwrap(), Color::C3);
}

#[test]
fn flip_image_vert() {
    let mut image = Image::new(2, 2);
    image.set_pixel(1, 0, Color::C3);
    image.set_pixel(1, 1, Color::C5);
    let image = image.flip_vert();
    assert_eq!(image.get_pixel(1, 0).unwrap(), Color::C5);
    assert_eq!(image.get_pixel(1, 1).unwrap(), Color::C3);
}

#[test]
fn rotate_image_cw() {
    let mut image = Image::new(4, 2);
    image.set_pixel(1, 0, Color::C3);
    image.set_pixel(1, 1, Color::C5);
    let image = image.rotate_cw();
    assert_eq!(2, image.width());
    assert_eq!(4, image.height());
    assert_eq!(image.get_pixel(1, 1).unwrap(), Color::C3);
    assert_eq!(image.get_pixel(0, 1).unwrap(), Color::C5);
}

#[test]
fn rotate_image_ccw() {
    let mut image = Image::new(4, 2);
    image.set_pixel(1, 0, Color::C3);
    image.set_pixel(1, 1, Color::C5);
    let image = image.rotate_ccw();
    assert_eq!(2, image.width());
    assert_eq!(4, image.height());
    assert_eq!(image.get_pixel(0, 2).unwrap(), Color::C3);
    assert_eq!(image.get_pixel(1, 2).unwrap(), Color::C5);
}

#[test]
fn fill_contained_rect() {
    let mut image = Image::new(5, 5);
    image.fill_rect(1, 1, 2, 2, Color::C3);
    let mut output = Vec::<u8>::new();
    image.write(&mut output);
    assert_eq!(
        &output as &[u8],
        b"00000\n\
          03300\n\
          03300\n\
          00000\n\
          00000\n" as &[u8]
    );
}

#[test]
fn fill_overlapping_rect() {
    let mut image = Image::new(5, 3);
    image.fill_rect(2, 1, 7, 7, Color::C3);
    let mut output = Vec::<u8>::new();
    image.write(&mut output);
    assert_eq!(
        &output as &[u8],
        b"00000\n\
          00333\n\
          00333\n" as &[u8]
    );
}

#[test]
fn draw_overlapping() {
    let input1: &[u8] = b"EEEEE\n\
                          EEEEE\n\
                          EEEEE\n";
    let (mut image1, _) = Image::read(input1, 0, 5, 3).unwrap();
    let input2: &[u8] = b"01110\n\
                          11011\n\
                          01110\n";
    let (image2, _) = Image::read(input2, 0, 5, 3).unwrap();
    image1.draw(&image2, -1, 1);
    let mut output = Vec::<u8>::new();
    image1.write(&mut output);
    assert_eq!(
        &output as &[u8],
        b"EEEEE\n\
          111EE\n\
          1E11E\n" as &[u8]
    );
}

#[test]
fn crop_image() {
    let input: &[u8] = b"123\n\
                         456\n";
    let (image, _) = Image::read(input, 0, 3, 2).unwrap();
    let cropped = image.crop(2, 3);
    let mut output = Vec::<u8>::new();
    cropped.write(&mut output);
    assert_eq!(
        &output as &[u8],
        b"12\n\
          45\n\
          00\n" as &[u8]
    );
}

#[test]
fn out_of_range_pixel_is_rejected() {
    let mut image = Image::new(2, 2);
    assert_eq!(image.get_pixel(2, 0), None);
    assert_eq!(image.get_pixel(0, 2), None);
    assert!(!image.set_pixel(5, 5, Color::C1));
    assert_eq!(image.get_pixel(1, 1).unwrap(), Color::C0);
}

#[test]
fn read_palette() {
    let input: &[u8] = b"C;;7F;F00;1EBA;C2C7F;FF7F00;0;F;3F7FBF9;01234567;1;2;3;4;5\n";
    let (palette, _) = Palette::read(input, 0).unwrap();
    assert_eq!(palette.get(Color::C0), (0xcc, 0xcc, 0xcc, 0xff));
    assert_eq!(palette.get(Color::C1), (0, 0, 0, 0));
    assert_eq!(palette.get(Color::C2), (0x7f, 0x7f, 0x7f, 0xff));
    assert_eq!(palette.get(Color::C3), (0xff, 0, 0, 0xff));
    assert_eq!(palette.get(Color::C4), (0x11, 0xee, 0xbb, 0xaa));
    assert_eq!(palette.get(Color::C5), (0xcc, 0x22, 0xcc, 0x7f));
    assert_eq!(palette.get(Color::C6), (0xff, 0x7f, 0, 0xff));
    assert_eq!(palette.get(Color::C7), (0, 0, 0, 0xff));
    assert_eq!(palette.get(Color::C8), (0xff, 0xff, 0xff, 0xff));
    assert_eq!(palette.get(Color::C9), (0x3f, 0x7f, 0xbf, 0x99));
    assert_eq!(palette.get(Color::Ca), (0x01, 0x23, 0x45, 0x67));
}

#[test]
fn read_and_write_palette() {
    let input: &[u8] = b"C;;7F;F00;1EBA;C2C7F;FF7F00;0;F;3F7FBF9;01234567;1;2;3;4;5\n";
    let (palette, _) = Palette::read(input, 0).unwrap();
    let mut output = Vec::<u8>::new();
    palette.write(&mut output);
    assert_eq!(&output as &[u8], input);
}

#[test]
fn palette_shortest_fields() {
    let mut palette = Palette::new([(0, 0, 0, 0); 16]);
    palette.set(Color::C1, (0x11, 0x22, 0x33, 0x44));
    palette.set(Color::C2, (0x12, 0x12, 0x12, 0xff));
    palette.set(Color::C3, (0xaa, 0xaa, 0xaa, 0xff));
    palette.set(Color::C4, (0x11, 0x22, 0x33, 0x45));
    palette.set(Color::C5, (0x12, 0x34, 0x56, 0xff));
    palette.set(Color::C6, (0x12, 0x34, 0x56, 0x78));
    palette.set(Color::C7, (0x12, 0x34, 0x56, 0x99));
    let mut output = Vec::<u8>::new();
    palette.write(&mut output);
    assert_eq!(
        &output as &[u8],
        b";1234;12;A;12345;123456;12345678;1234569;;;;;;;;\n" as &[u8]
    );
}
