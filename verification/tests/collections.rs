use ahi::{Collection, Color, Image, Palette};

#[test]
fn read_empty_v0_collection() {
    let input: &[u8] = b"ahi0 w0 h0 n0\n";
    let collection = Collection::read(input).unwrap();
    assert_eq!(collection.images.len(), 0);
}

#[test]
fn read_empty_v1_collection() {
    let input: &[u8] = b"ahi1 f0 p0 i0 w0 h0\n";
    let collection = Collection::read(input).unwrap();
    assert_eq!(collection.images.len(), 0);
}

#[test]
fn read_v0_collection_with_two_images() {
    let input: &[u8] = b"ahi0 w2 h2 n2\n\
                         \n\
                         20\n\
                         5D\n\
                         \n\
                         E0\n\
                         0E\n";
    let collection = Collection::read(input).unwrap();
    assert_eq!(collection.images.len(), 2);
    assert_eq!(collection.images[0].get_pixel(0, 1).unwrap(), Color::C5);
    assert_eq!(collection.images[1].get_pixel(0, 0).unwrap(), Color::Ce);
}

#[test]
fn read_v1_collection_with_two_palettes_and_one_image() {
    let input: &[u8] = b"ahi1 f0 p2 i1 w2 h2\n\
                         \n\
                         0;1;2;3;4;5;6;7;8;9;A;B;C;D;E;F\n\
                         ;0;F00;F70;FF0;0F0;0FF;00F;70F;3;5;8;B;D;F0F;F\n\
                         \n\
                         E0\n\
                         0E\n";
    let collection = Collection::read(input).unwrap();
    assert_eq!(collection.palettes.len(), 2);
    assert_eq!(collection.palettes[0].get(Color::Ce), (0xee, 0xee, 0xee, 0xff));
    assert_eq!(collection.palettes[1].get(Color::Ce), (0xff, 0, 0xff, 0xff));
    assert_eq!(collection.images.len(), 1);
    assert_eq!(collection.images[0].get_pixel(0, 0).unwrap(), Color::Ce);
}

#[test]
fn read_v1_collection_with_two_different_sized_images() {
    let input: &[u8] = b"ahi1 f1 p0 i2\n\
                         \n\
                         w4 h2\n\
                         2021\n\
                         5D57\n\
                         \n\
                         w2 h3\n\
                         E0\n\
                         0E\n\
                         F1\n";
    let collection = Collection::read(input).unwrap();
    assert_eq!(collection.images.len(), 2);
    assert_eq!(collection.images[0].width(), 4);
    assert_eq!(collection.images[0].height(), 2);
    assert_eq!(collection.images[1].width(), 2);
    assert_eq!(collection.images[1].height(), 3);
}

#[test]
fn read_v1_collection_with_some_images_empty() {
    let input: &[u8] = b"ahi1 f1 p0 i5\n\
          \n\
          w4 h1\n\
          0000\n\
          \n\
          w4 h0\n\
          \n\
          w3 h1\n\
          000\n\
          \n\
          w0 h4\n\
          \n\
          w2 h1\n\
          00\n";
    let collection = Collection::read(input).unwrap();
    assert_eq!(collection.images.len(), 5);
    assert_eq!(collection.images[0].width(), 4);
    assert_eq!(collection.images[0].height(), 1);
    assert_eq!(collection.images[1].width(), 4);
    assert_eq!(collection.images[1].height(), 0);
    assert_eq!(collection.images[2].width(), 3);
    assert_eq!(collection.images[2].height(), 1);
    assert_eq!(collection.images[3].width(), 0);
    assert_eq!(collection.images[3].height(), 4);
    assert_eq!(collection.images[4].width(), 2);
    assert_eq!(collection.images[4].height(), 1);
}

#[test]
fn read_v1_collection_with_string_tags() {
    let input: &[u8] = b"ahi1 f2 p0 i2 w2 h1\n\
          \n\
          \"foo\"\n\
          00\n\
          \n\
          \"Snowman\\u{2603}\"\n\
          00\n";
    let collection = Collection::read(input).unwrap();
    assert_eq!(collection.images.len(), 2);
    assert_eq!(collection.images[0].tag(), "foo");
    assert_eq!(collection.images[1].tag(), "Snowman\u{2603}");
}

#[test]
fn read_v1_collection_with_metadata() {
    let input: &[u8] = b"ahi1 f4 p0 i2 w2 h1\n\
          \n\
          [1, -2, 3]\n\
          00\n\
          \n\
          [4, 5]\n\
          00\n";
    let collection = Collection::read(input).unwrap();
    assert_eq!(collection.images.len(), 2);
    assert_eq!(collection.images[0].metadata(), &[1, -2, 3]);
    assert_eq!(collection.images[1].metadata(), &[4, 5]);
}

#[test]
fn read_v1_collection_with_all_flags() {
    let input: &[u8] = b"ahi1 f7 p0 i2\n\
          \n\
          \"\"\n\
          [1, -2, 3]\n\
          w3 h1\n\
          000\n\
          \n\
          \"foobar\"\n\
          []\n\
          w1 h2\n\
          0\n\
          0\n";
    let collection = Collection::read(input).unwrap();
    assert_eq!(collection.images.len(), 2);
    assert_eq!(collection.images[0].tag(), "");
    assert_eq!(collection.images[0].metadata(), &[1, -2, 3]);
    assert_eq!(collection.images[0].width(), 3);
    assert_eq!(collection.images[0].height(), 1);
    assert_eq!(collection.images[1].tag(), "foobar");
    assert_eq!(collection.images[1].metadata(), &[]);
    assert_eq!(collection.images[1].width(), 1);
    assert_eq!(collection.images[1].height(), 2);
}

#[test]
fn write_empty_collection() {
    let mut output = Vec::<u8>::new();
    Collection::new().write(&mut output).unwrap();
    assert_eq!(&output as &[u8], b"ahi0 w0 h0 n0\n");
}

#[test]
fn write_collection_with_two_palettes() {
    let mut collection = Collection::new();
    collection.palettes.push(Palette::default());
    collection.palettes.push(Palette::new([(0, 0, 0, 255); 16]));
    let mut output = Vec::<u8>::new();
    collection.write(&mut output).unwrap();
    let expected: &[u8] = b"ahi1 f0 p2 i0 w0 h0\n\
          \n\
          ;0;7F0000;F00;007F00;0F0;7F7F00;FF0;00007F;00F;\
          7F007F;F0F;007F7F;0FF;7F;F\n\
          0;0;0;0;0;0;0;0;0;0;0;0;0;0;0;0\n";
    assert_eq!(&output as &[u8], expected);
}

#[test]
fn write_collection_with_same_sized_images() {
    let mut collection = Collection::new();
    let mut image0 = Image::new(2, 2);
    image0.set_pixel(0, 0, Color::C2);
    image0.set_pixel(0, 1, Color::C5);
    image0.set_pixel(1, 1, Color::Cd);
    collection.images.push(image0);
    let mut image1 = Image::new(2, 2);
    image1.set_pixel(0, 0, Color::Ce);
    image1.set_pixel(1, 1, Color::Ce);
    collection.images.push(image1);
    let mut output = Vec::<u8>::new();
    collection.write(&mut output).unwrap();
    assert_eq!(
        &output as &[u8],
        b"ahi0 w2 h2 n2\n\
                 \n\
                 20\n\
                 5D\n\
                 \n\
                 E0\n\
                 0E\n"
    );
}

#[test]
fn write_collection_with_different_sized_images() {
    let mut collection = Collection::new();
    collection.images.push(Image::new(4, 2));
    collection.images.push(Image::new(1, 3));
    let mut output = Vec::<u8>::new();
    collection.write(&mut output).unwrap();
    let expected: &[u8] = b"ahi1 f1 p0 i2\n\
          \n\
          w4 h2\n\
          0000\n\
          0000\n\
          \n\
          w1 h3\n\
          0\n\
          0\n\
          0\n";
    assert_eq!(&output as &[u8], expected);
}

#[test]
fn write_collection_with_some_images_empty() {
    let mut collection = Collection::new();
    collection.images.push(Image::new(4, 1));
    collection.images.push(Image::new(4, 0));
    collection.images.push(Image::new(3, 1));
    collection.images.push(Image::new(0, 4));
    collection.images.push(Image::new(2, 1));
    let mut output = Vec::<u8>::new();
    collection.write(&mut output).unwrap();
    let expected: &[u8] = b"ahi1 f1 p0 i5\n\
          \n\
          w4 h1\n\
          0000\n\
          \n\
          w4 h0\n\
          \n\
          w3 h1\n\
          000\n\
          \n\
          w0 h4\n\
          \n\
          w2 h1\n\
          00\n";
    assert_eq!(&output as &[u8], expected);
}

#[test]
fn write_collection_with_with_string_tags() {
    let mut collection = Collection::new();
    collection.images.push(Image::new(2, 1));
    collection.images[0].set_tag("foo");
    collection.images.push(Image::new(2, 1));
    collection.images[1].set_tag("Snowman\u{2603}");
    let mut output = Vec::<u8>::new();
    collection.write(&mut output).unwrap();
    let expected: &[u8] = b"ahi1 f2 p0 i2 w2 h1\n\
          \n\
          \"foo\"\n\
          00\n\
          \n\
          \"Snowman\\u{2603}\"\n\
          00\n";
    assert_eq!(&output as &[u8], expected);
}

#[test]
fn write_collection_with_with_metadata_ints() {
    let mut collection = Collection::new();
    collection.images.push(Image::new(2, 1));
    collection.images[0].set_metadata(vec![1, -2, 3]);
    collection.images.push(Image::new(2, 1));
    collection.images[1].set_metadata(vec![4, 5]);
    let mut output = Vec::<u8>::new();
    collection.write(&mut output).unwrap();
    let expected: &[u8] = b"ahi1 f4 p0 i2 w2 h1\n\
          \n\
          [1, -2, 3]\n\
          00\n\
          \n\
          [4, 5]\n\
          00\n";
    assert_eq!(&output as &[u8], expected);
}

#[test]
fn write_collection_with_all_flags() {
    let mut collection = Collection::new();
    collection.images.push(Image::new(3, 1));
    collection.images[0].set_metadata(vec![1, -2, 3]);
    collection.images.push(Image::new(1, 2));
    collection.images[1].set_tag("foobar");
    let mut output = Vec::<u8>::new();
    collection.write(&mut output).unwrap();
    let expected: &[u8] = b"ahi1 f7 p0 i2\n\
          \n\
          \"\"\n\
          [1, -2, 3]\n\
          w3 h1\n\
          000\n\
          \n\
          \"foobar\"\n\
          []\n\
          w1 h2\n\
          0\n\
          0\n";
    assert_eq!(&output as &[u8], expected);
}

#[test]
fn collection_round_trip_mixed() {
    let mut collection = Collection::new();
    collection.palettes.push(Palette::default());
    let mut image0 = Image::new(3, 1);
    image0.set_tag("a \"quoted\" tag\twith\u{1F600}escapes");
    image0.set_metadata(vec![-32768, 32767, 0]);
    image0.set_pixel(1, 0, Color::C7);
    collection.images.push(image0);
    let mut image1 = Image::new(1, 2);
    image1.set_pixel(0, 1, Color::Cf);
    collection.images.push(image1);
    let mut output = Vec::<u8>::new();
    collection.write(&mut output).unwrap();
    let back = Collection::read(&output).unwrap();
    assert_eq!(back.palettes.len(), 1);
    assert_eq!(back.palettes[0].get(Color::C3), (255, 0, 0, 255));
    assert_eq!(back.images.len(), 2);
    assert_eq!(back.images[0].tag(), "a \"quoted\" tag\twith\u{1F600}escapes");
    assert_eq!(back.images[0].metadata(), &[-32768, 32767, 0]);
    assert_eq!(back.images[0].get_pixel(1, 0).unwrap(), Color::C7);
    assert_eq!(back.images[1].get_pixel(0, 1).unwrap(), Color::Cf);
    assert_eq!(back.images[1].get_pixel(0, 0).unwrap(), Color::C0);
}

#[test]
fn collection_round_trip_uniform_uses_v0() {
    let mut collection = Collection::new();
    collection.images.push(Image::new(2, 3));
    collection.images.push(Image::new(2, 3));
    let mut output = Vec::<u8>::new();
    collection.write(&mut output).unwrap();
    assert_eq!(&output[0..4], b"ahi0");
    let back = Collection::read(&output).unwrap();
    assert_eq!(back.images.len(), 2);
    assert_eq!(back.images[0].width(), 2);
    assert_eq!(back.images[0].height(), 3);
}
