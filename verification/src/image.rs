//! Indexed-color images: a rectangular grid of color indices in row-major
//! order, with an optional string tag and optional integer metadata, and the
//! pixel-grid text form of one hex character per pixel, one line per row.

use vstd::prelude::*;
use crate::ascii::NL;
use crate::color::{
    color_byte, color_of_byte, is_color_byte, lemma_color_codec_bijective, Color,
};
use crate::error::Error;
use crate::palette::{Palette, Rgba};
use crate::text::{chars_to_string, str_to_chars};
use crate::token::{
    lemma_subrange_index, lemma_subrange_split, parse_byte, read_exact_byte,
};

verus! {

/// The mathematical model of an image: its tag, metadata, dimensions and
/// row-major pixels.
#[verifier::ext_equal]
pub ghost struct ImageView {
    /// The characters of the image's tag; empty means no tag.
    pub tag: Seq<char>,
    /// The image's metadata integers; empty means no metadata.
    pub metadata: Seq<i16>,
    /// The image's width in pixels.
    pub width: int,
    /// The image's height in pixels.
    pub height: int,
    /// The color index of each pixel, row-major, top to bottom.
    pub pixels: Seq<Color>,
}

impl ImageView {
    /// The pixel grid always holds exactly `width * height` entries.
    pub open spec fn wf(self) -> bool {
        &&& self.pixels.len() == self.width * self.height
        &&& 0 <= self.width <= u32::MAX
        &&& 0 <= self.height <= u32::MAX
    }

    /// The pixel in column `col` of row `row`.
    pub open spec fn pixel(self, col: int, row: int) -> Color {
        self.pixels[row * self.width + col]
    }
}

/// A single image of 4-bit color indices.
#[derive(Clone, Debug)]
pub struct Image {
    tag: Vec<char>,
    metadata: Vec<i16>,
    width: u32,
    height: u32,
    pixels: Vec<Color>,
}

impl View for Image {
    type V = ImageView;

    closed spec fn view(&self) -> ImageView {
        ImageView {
            tag: self.tag@,
            metadata: self.metadata@,
            width: self.width as int,
            height: self.height as int,
            pixels: self.pixels@,
        }
    }
}

/// A row-major index stays inside the grid.
pub proof fn lemma_grid_index(w: int, h: int, col: int, row: int)
    requires
        0 <= col < w,
        0 <= row < h,
    ensures
        0 <= row * w + col < w * h,
{
    assert(0 <= row * w + col && row * w + col < w * h) by (nonlinear_arith)
        requires
            0 <= col < w,
            0 <= row < h,
    {}
}

impl Image {
    /// Creates an image of the given size with every pixel transparent and
    /// no tag or metadata.
    pub fn new(width: u32, height: u32) -> (img: Image)
        requires
            width as int * height as int <= usize::MAX,
        ensures
            img@.wf(),
            img@.width == width as int,
            img@.height == height as int,
            img@.tag.len() == 0,
            img@.metadata.len() == 0,
            img@.pixels =~= Seq::new((width as int * height as int) as nat, |k: int| Color::C0),
    {
        let n: usize = (width as usize) * (height as usize);
        let pixels: Vec<Color> = vec![Color::C0; n];
        Image { tag: Vec::new(), metadata: Vec::new(), width, height, pixels }
    }

    /// The string tag of this image; empty means it has none.
    pub fn tag(&self) -> (t: String)
        ensures
            t@ == self@.tag,
    {
        chars_to_string(&self.tag)
    }

    /// Replaces this image's tag.
    pub fn set_tag(&mut self, tag: &str)
        ensures
            final(self)@ == (ImageView { tag: tag@, ..old(self)@ }),
    {
        self.tag = str_to_chars(tag);
    }

    /// Replaces this image's tag with already-decoded characters.
    pub(crate) fn set_tag_chars(&mut self, tag: Vec<char>)
        ensures
            final(self)@ == (ImageView { tag: tag@, ..old(self)@ }),
    {
        self.tag = tag;
    }

    /// The characters of this image's tag.
    pub(crate) fn tag_chars(&self) -> (t: &Vec<char>)
        ensures
            t@ == self@.tag,
    {
        &self.tag
    }

    /// The metadata integers of this image; empty means it has none.
    pub fn metadata(&self) -> (m: &Vec<i16>)
        ensures
            m@ == self@.metadata,
    {
        &self.metadata
    }

    /// Replaces this image's metadata.
    pub fn set_metadata(&mut self, metadata: Vec<i16>)
        ensures
            final(self)@ == (ImageView { metadata: metadata@, ..old(self)@ }),
    {
        self.metadata = metadata;
    }

    /// The width of this image, in pixels.
    pub fn width(&self) -> (w: u32)
        ensures
            w as int == self@.width,
    {
        self.width
    }

    /// The height of this image, in pixels.
    pub fn height(&self) -> (h: u32)
        ensures
            h as int == self@.height,
    {
        self.height
    }

    /// The pixel at `(col, row)`, or nothing when the coordinates lie
    /// outside the image.
    pub fn get_pixel(&self, col: u32, row: u32) -> (r: Option<Color>)
        requires
            self@.wf(),
        ensures
            r == (if (col as int) < self@.width && (row as int) < self@.height {
                Some(self@.pixel(col as int, row as int))
            } else {
                None::<Color>
            }),
    {
        if col < self.width && row < self.height {
            let plen = self.pixels.len();
            proof {
                lemma_grid_index(self@.width, self@.height, col as int, row as int);
                assert(plen as int == self@.pixels.len());
            }
            let idx: usize = (row as usize) * (self.width as usize) + (col as usize);
            Some(self.pixels[idx])
        } else {
            None
        }
    }

    /// Sets the pixel at `(col, row)` and reports whether the coordinates
    /// lay inside the image; an out-of-range pair leaves the image unchanged.
    pub fn set_pixel(&mut self, col: u32, row: u32, color: Color) -> (hit: bool)
        requires
            old(self)@.wf(),
        ensures
            final(self)@.wf(),
            hit == ((col as int) < old(self)@.width && (row as int) < old(self)@.height),
            hit ==> final(self)@ == (ImageView {
                pixels: old(self)@.pixels.update(
                    (row as int) * old(self)@.width + col as int,
                    color,
                ),
                ..old(self)@
            }),
            !hit ==> final(self)@ == old(self)@,
    {
        if col < self.width && row < self.height {
            let plen = self.pixels.len();
            proof {
                lemma_grid_index(self@.width, self@.height, col as int, row as int);
                assert(plen as int == self@.pixels.len());
            }
            let idx: usize = (row as usize) * (self.width as usize) + (col as usize);
            self.pixels[idx] = color;
            true
        } else {
            false
        }
    }

    /// Sets every pixel to transparent.
    pub fn clear(&mut self)
        requires
            old(self)@.wf(),
        ensures
            final(self)@.wf(),
            final(self)@ == (ImageView {
                pixels: Seq::new(old(self)@.pixels.len(), |k: int| Color::C0),
                ..old(self)@
            }),
    {
        let n: usize = self.pixels.len();
        self.pixels = vec![Color::C0; n];
        proof {
            assert(self@ =~= (ImageView {
                pixels: Seq::new(old(self)@.pixels.len(), |k: int| Color::C0),
                ..old(self)@
            }));
        }
    }

    /// The RGBA bytes of this image under the given palette: four bytes per
    /// pixel, row-major.
    pub fn rgba_data(&self, palette: &Palette) -> (data: Vec<u8>)
        requires
            self@.wf(),
            palette.wf(),
        ensures
            data@ == rgba_bytes(palette@, self@.pixels),
    {
        let mut data: Vec<u8> = Vec::new();
        let mut k: usize = 0;
        while k < self.pixels.len()
            invariant
                self@.wf(),
                palette.wf(),
                k <= self@.pixels.len(),
                data@ =~= rgba_bytes(palette@, self@.pixels.subrange(0, k as int)),
            decreases self@.pixels.len() - k,
        {
            let (r, g, b, a) = palette.get(self.pixels[k]);
            data.push(r);
            data.push(g);
            data.push(b);
            data.push(a);
            k = k + 1;
            proof {
                assert(data@ =~= rgba_bytes(palette@, self@.pixels.subrange(0, k as int)));
            }
        }
        proof {
            assert(self@.pixels.subrange(0, self@.pixels.len() as int) =~= self@.pixels);
        }
        data
    }

    /// Reads a pixel grid of the given size: `height` rows of `width`
    /// uppercase hex characters, each row ended by a newline.  The image has
    /// no tag and no metadata.
    pub fn read(data: &[u8], pos: usize, width: u32, height: u32) -> (r: Result<
        (Image, usize),
        Error,
    >)
        requires
            pos <= data@.len(),
        ensures
            match r {
                Ok((img, j)) => parse_grid(data@, pos as int, width as int, height as int,
                    Seq::<Color>::empty())
                    == Ok::<(Seq<Color>, int), Error>((img@.pixels, j as int))
                    && img@.wf()
                    && img@.width == width as int
                    && img@.height == height as int
                    && img@.tag.len() == 0
                    && img@.metadata.len() == 0
                    && pos <= j <= data@.len(),
                Err(e) => parse_grid(data@, pos as int, width as int, height as int,
                    Seq::<Color>::empty()) == Err::<(Seq<Color>, int), Error>(e),
            },
    {
        let ghost start = parse_grid(data@, pos as int, width as int, height as int,
            Seq::<Color>::empty());
        if width == 0 {
            let pixels: Vec<Color> = Vec::new();
            proof {
                assert(pixels@ =~= Seq::<Color>::empty());
            }
            return Ok((
                Image { tag: Vec::new(), metadata: Vec::new(), width, height, pixels },
                pos,
            ));
        }
        let mut pixels: Vec<Color> = Vec::new();
        let mut row: u32 = 0;
        let mut i = pos;
        while row < height
            invariant
                width > 0,
                pos <= i <= data@.len(),
                row <= height,
                pixels@.len() == row as int * width as int,
                start == parse_grid(data@, pos as int, width as int, height as int,
                    Seq::<Color>::empty()),
                start == parse_grid(data@, i as int, width as int, (height - row) as int,
                    pixels@),
            decreases height - row,
        {
            let mut col: u32 = 0;
            proof {
                assert(parse_grid(data@, i as int, width as int, (height - row) as int, pixels@)
                    == parse_grid_mid(data@, i as int, width as int, width as int,
                        (height - row) as int, pixels@));
            }
            while col < width
                invariant
                    width > 0,
                    pos <= i <= data@.len(),
                    row < height,
                    col <= width,
                    pixels@.len() == row as int * width as int + col as int,
                    start == parse_grid(data@, pos as int, width as int, height as int,
                        Seq::<Color>::empty()),
                    start == parse_grid_mid(data@, i as int, width as int,
                        (width - col) as int, (height - row) as int, pixels@),
                decreases width - col,
            {
                if i >= data.len() {
                    return Err(Error::UnexpectedEnd);
                }
                let b = data[i];
                let c = match Color::from_byte(b) {
                    Ok(c) => c,
                    Err(e) => return Err(e),
                };
                pixels.push(c);
                i = i + 1;
                col = col + 1;
            }
            let j = match read_exact_byte(data, i, NL) {
                Ok(j) => j,
                Err(e) => return Err(e),
            };
            i = j;
            row = row + 1;
            proof {
                assert(pixels@.len() == row as int * width as int) by (nonlinear_arith)
                    requires
                        pixels@.len() == (row as int - 1) * width as int + width as int,
                {}
            }
        }
        proof {
            assert(parse_grid(data@, i as int, width as int, 0, pixels@)
                == Ok::<(Seq<Color>, int), Error>((pixels@, i as int)));
            assert(pixels@.len() == width as int * height as int) by (nonlinear_arith)
                requires
                    pixels@.len() == height as int * width as int,
            {}
        }
        Ok((
            Image { tag: Vec::new(), metadata: Vec::new(), width, height, pixels },
            i,
        ))
    }

    /// Appends this image's pixel grid: one hex character per pixel, one
    /// line per row, top to bottom.
    pub fn write(&self, out: &mut Vec<u8>)
        requires
            self@.wf(),
        ensures
            final(out)@ == old(out)@ + enc_grid(self@.pixels, self@.width, self@.height),
    {
        if self.width == 0 {
            proof {
                assert(final(out)@ =~= old(out)@
                    + enc_grid(self@.pixels, self@.width, self@.height));
            }
            return;
        }
        let mut row: u32 = 0;
        let ghost w = self@.width;
        let ghost h = self@.height;
        while row < self.height
            invariant
                self@.wf(),
                w == self@.width,
                h == self@.height,
                w > 0,
                row <= h,
                out@ == old(out)@ + enc_grid_rows(self@.pixels, w, 0, row as int),
            decreases self@.height - row,
        {
            let ghost pre_row = out@;
            let mut col: u32 = 0;
            while col < self.width
                invariant
                    self@.wf(),
                    w == self@.width,
                    h == self@.height,
                    row < h,
                    col <= w,
                    pre_row == old(out)@ + enc_grid_rows(self@.pixels, w, 0, row as int),
                    out@ == pre_row + Seq::new(col as nat,
                        |c: int| color_byte(self@.pixels[row as int * w + c])),
                decreases self@.width - col,
            {
                let plen = self.pixels.len();
                proof {
                    lemma_grid_index(w, h, col as int, row as int);
                    assert(plen as int == self@.pixels.len());
                }
                let idx: usize = (row as usize) * (self.width as usize) + (col as usize);
                let b = self.pixels[idx].to_byte();
                out.push(b);
                col = col + 1;
                proof {
                    assert(out@ =~= pre_row + Seq::new(col as nat,
                        |c: int| color_byte(self@.pixels[row as int * w + c])));
                }
            }
            out.push(NL);
            row = row + 1;
            proof {
                assert(Seq::new(w as nat, |c: int| color_byte(self@.pixels[(row - 1) * w + c]))
                    =~= enc_row(self@.pixels, w, row - 1));
                lemma_enc_grid_rows_snoc(self@.pixels, w, 0, row as int);
                assert(out@ =~= old(out)@ + enc_grid_rows(self@.pixels, w, 0, row as int));
            }
        }
        proof {
            assert(w > 0);
            assert(enc_grid(self@.pixels, w, h) == enc_grid_rows(self@.pixels, w, 0, h));
        }
    }
}

/// The bytes of row `row` of a grid: one color character per column.
pub open spec fn enc_row(pixels: Seq<Color>, w: int, row: int) -> Seq<u8> {
    Seq::new(if w >= 0 { w as nat } else { 0 }, |c: int| color_byte(pixels[row * w + c]))
}

/// The bytes of rows `row` up to `h` of a grid, each ended by a newline.
pub open spec fn enc_grid_rows(pixels: Seq<Color>, w: int, row: int, h: int) -> Seq<u8>
    decreases h - row,
{
    if row >= h {
        Seq::<u8>::empty()
    } else {
        (enc_row(pixels, w, row) + seq![NL]) + enc_grid_rows(pixels, w, row + 1, h)
    }
}

/// The bytes of a whole pixel grid.  A zero-width grid has no row lines at
/// all, whatever its height.
pub open spec fn enc_grid(pixels: Seq<Color>, w: int, h: int) -> Seq<u8> {
    if w <= 0 {
        Seq::<u8>::empty()
    } else {
        enc_grid_rows(pixels, w, 0, h)
    }
}

/// Splitting the last row off a run of printed rows.
pub proof fn lemma_enc_grid_rows_snoc(pixels: Seq<Color>, w: int, row: int, h: int)
    requires
        row < h,
    ensures
        enc_grid_rows(pixels, w, row, h)
            =~= enc_grid_rows(pixels, w, row, h - 1)
                + (enc_row(pixels, w, h - 1) + seq![NL]),
    decreases h - row,
{
    if row < h - 1 {
        lemma_enc_grid_rows_snoc(pixels, w, row + 1, h);
        assert(enc_grid_rows(pixels, w, row, h)
            =~= enc_grid_rows(pixels, w, row, h - 1)
                + (enc_row(pixels, w, h - 1) + seq![NL]));
    } else {
        assert(enc_grid_rows(pixels, w, h, h) =~= Seq::<u8>::empty());
        assert(enc_grid_rows(pixels, w, h - 1, h)
            =~= (enc_row(pixels, w, h - 1) + seq![NL]) + Seq::<u8>::empty());
        assert(enc_grid_rows(pixels, w, row, h - 1) =~= Seq::<u8>::empty());
    }
}

/// A row parse in the middle of a grid: the rest of the current row, then
/// the remaining rows.
pub open spec fn parse_grid_mid(
    s: Seq<u8>,
    i: int,
    w: int,
    wrem: int,
    hrem: int,
    acc: Seq<Color>,
) -> Result<(Seq<Color>, int), Error> {
    match parse_row(s, i, wrem, acc) {
        Ok((acc2, j)) => parse_grid(s, j, w, hrem - 1, acc2),
        Err(e) => Err(e),
    }
}

/// The RGBA bytes of a pixel sequence under a palette: four bytes per
/// pixel, row-major.
pub open spec fn rgba_bytes(p: Seq<Rgba>, pixels: Seq<Color>) -> Seq<u8> {
    Seq::new((4 * pixels.len()) as nat, |m: int| {
        let c = p[crate::color::color_index(pixels[m / 4])];
        if m % 4 == 0 {
            c.0
        } else if m % 4 == 1 {
            c.1
        } else if m % 4 == 2 {
            c.2
        } else {
            c.3
        }
    })
}

/// One pixel row of `w` color characters ended by a newline, appended to
/// the accumulator.
pub open spec fn parse_row(s: Seq<u8>, i: int, w: int, acc: Seq<Color>) -> Result<
    (Seq<Color>, int),
    Error,
>
    decreases w,
{
    if w <= 0 {
        match parse_byte(s, i, NL) {
            Ok(j) => Ok((acc, j)),
            Err(e) => Err(e),
        }
    } else if !(0 <= i < s.len()) {
        Err(Error::UnexpectedEnd)
    } else if is_color_byte(s[i]) {
        parse_row(s, i + 1, w - 1, acc.push(color_of_byte(s[i])))
    } else {
        Err(Error::InvalidPixelCharacter(s[i]))
    }
}

/// `h` pixel rows of `w` color characters each.  A zero-width grid has no
/// row lines at all, whatever its height.
pub open spec fn parse_grid(s: Seq<u8>, i: int, w: int, h: int, acc: Seq<Color>) -> Result<
    (Seq<Color>, int),
    Error,
>
    decreases h,
{
    if h <= 0 || w <= 0 {
        Ok((acc, i))
    } else {
        match parse_row(s, i, w, acc) {
            Ok((acc2, j)) => parse_grid(s, j, w, h - 1, acc2),
            Err(e) => Err(e),
        }
    }
}

// ===================================================================== //
//  Round trips                                                          //
// ===================================================================== //

/// Parsing a printed row of pixels followed by its newline appends the
/// pixels to the accumulator.
pub proof fn lemma_parse_row_of_enc(s: Seq<u8>, i: int, q: Seq<Color>, acc: Seq<Color>)
    requires
        0 <= i,
        i + q.len() < s.len(),
        forall|k: int| 0 <= k < q.len() ==> s[i + k] == color_byte(#[trigger] q[k]),
        s[i + q.len()] == NL,
    ensures
        parse_row(s, i, q.len() as int, acc)
            == Ok::<(Seq<Color>, int), Error>((acc + q, i + q.len() + 1)),
    decreases q.len(),
{
    lemma_color_codec_bijective();
    if q.len() == 0 {
        assert(s[i] == NL);
        assert(acc + q =~= acc);
    } else {
        assert(s[i + 0] == color_byte(q[0]));
        assert(is_color_byte(s[i]));
        assert(color_of_byte(s[i]) == q[0]);
        let tl = q.drop_first();
        assert forall|k: int| 0 <= k < tl.len()
            implies s[i + 1 + k] == color_byte(#[trigger] tl[k]) by {
            assert(tl[k] == q[k + 1]);
            assert(s[i + (k + 1)] == color_byte(q[k + 1]));
        }
        assert(s[i + 1 + tl.len()] == NL);
        lemma_parse_row_of_enc(s, i + 1, tl, acc.push(q[0]));
        assert(acc.push(q[0]) + tl =~= acc + q);
        assert(s[i] != NL) by {
            assert(is_color_byte(s[i]));
        }
    }
}

/// Parsing the printed rows from `row` on appends the corresponding pixels
/// to the accumulator.
pub proof fn lemma_parse_grid_rows_of_enc(
    s: Seq<u8>,
    i: int,
    pixels: Seq<Color>,
    w: int,
    row: int,
    h: int,
    acc: Seq<Color>,
)
    requires
        1 <= w,
        0 <= row <= h,
        pixels.len() == w * h,
        0 <= i,
        i + enc_grid_rows(pixels, w, row, h).len() <= s.len(),
        s.subrange(i, i + enc_grid_rows(pixels, w, row, h).len())
            == enc_grid_rows(pixels, w, row, h),
    ensures
        parse_grid(s, i, w, h - row, acc)
            == Ok::<(Seq<Color>, int), Error>((
                acc + pixels.subrange(row * w, h * w),
                i + enc_grid_rows(pixels, w, row, h).len(),
            )),
    decreases h - row,
{
    assert(0 <= row * w <= h * w <= pixels.len()) by (nonlinear_arith)
        requires
            0 <= w,
            0 <= row <= h,
            pixels.len() == w * h,
    {}
    if row == h {
        assert(acc + pixels.subrange(row * w, h * w) =~= acc);
    } else {
        let er = enc_row(pixels, w, row) + seq![NL];
        let rest = enc_grid_rows(pixels, w, row + 1, h);
        assert(enc_grid_rows(pixels, w, row, h) == er + rest);
        lemma_subrange_split(s, i, er, rest);
        let q = pixels.subrange(row * w, row * w + w);
        assert(0 <= row * w && row * w + w <= pixels.len()) by (nonlinear_arith)
            requires
                0 <= w,
                0 <= row < h,
                pixels.len() == w * h,
        {}
        assert forall|k: int| 0 <= k < q.len()
            implies s[i + k] == color_byte(#[trigger] q[k]) by {
            lemma_subrange_index(s, i, er, k);
            assert(er[k] == enc_row(pixels, w, row)[k]);
            assert(enc_row(pixels, w, row)[k] == color_byte(pixels[row * w + k]));
            assert(q[k] == pixels[row * w + k]);
        }
        lemma_subrange_index(s, i, er, w);
        assert(s[i + w] == NL);
        lemma_parse_row_of_enc(s, i, q, acc);
        lemma_parse_grid_rows_of_enc(s, i + er.len(), pixels, w, row + 1, h, acc + q);
        assert((row + 1) * w == row * w + w) by (nonlinear_arith)
        {}
        assert((acc + q) + pixels.subrange((row + 1) * w, h * w)
            =~= acc + pixels.subrange(row * w, h * w));
    }
}

/// Parsing the printed form of a whole pixel grid gives the pixels back.
pub proof fn lemma_parse_grid_of_enc(s: Seq<u8>, i: int, pixels: Seq<Color>, w: int, h: int)
    requires
        0 <= w,
        0 <= h,
        pixels.len() == w * h,
        0 <= i,
        i + enc_grid(pixels, w, h).len() <= s.len(),
        s.subrange(i, i + enc_grid(pixels, w, h).len()) == enc_grid(pixels, w, h),
    ensures
        parse_grid(s, i, w, h, Seq::<Color>::empty())
            == Ok::<(Seq<Color>, int), Error>((pixels, i + enc_grid(pixels, w, h).len())),
{
    if w == 0 {
        assert(pixels =~= Seq::<Color>::empty());
    } else {
        lemma_parse_grid_rows_of_enc(s, i, pixels, w, 0, h, Seq::<Color>::empty());
        assert(h * w == w * h) by (nonlinear_arith)
        {}
        assert(Seq::<Color>::empty() + pixels.subrange(0, h * w) =~= pixels);
    }
}

// ===================================================================== //
//  In-memory transforms                                                 //
// ===================================================================== //

/// `v` clamped into `[0, hi]`.
pub open spec fn clamp_to(v: int, hi: int) -> int {
    if v < 0 {
        0
    } else if v > hi {
        hi
    } else {
        v
    }
}

/// The smaller of two numbers.
pub open spec fn min_int(a: int, b: int) -> int {
    if a < b {
        a
    } else {
        b
    }
}

/// Row-major indexing is injective inside the grid.
pub proof fn lemma_grid_index_inj(w: int, c1: int, r1: int, c2: int, r2: int)
    requires
        0 <= c1 < w,
        0 <= c2 < w,
        0 <= r1,
        0 <= r2,
    ensures
        (r1 * w + c1 == r2 * w + c2) <==> (r1 == r2 && c1 == c2),
{
    assert((r1 * w + c1 == r2 * w + c2) <==> (r1 == r2 && c1 == c2)) by (nonlinear_arith)
        requires
            0 <= c1 < w,
            0 <= c2 < w,
            0 <= r1,
            0 <= r2,
    {}
}

/// A row-major index splits back into its row and column.
pub proof fn lemma_grid_index_div(w: int, c: int, r: int)
    requires
        0 <= c < w,
        0 <= r,
    ensures
        (r * w + c) / w == r,
        (r * w + c) % w == c,
{
    assert((r * w + c) / w == r && (r * w + c) % w == c) by (nonlinear_arith)
        requires
            0 <= c < w,
            0 <= r,
    {}
}

/// The first rows of the source image a draw starts copying from.
pub open spec fn draw_ssr(dst: ImageView, src: ImageView, x: int, y: int) -> int {
    clamp_to(-y, src.height)
}

/// The first columns of the source image a draw starts copying from.
pub open spec fn draw_ssc(dst: ImageView, src: ImageView, x: int, y: int) -> int {
    clamp_to(-x, src.width)
}

/// The first row of the destination a draw writes to.
pub open spec fn draw_dsr(dst: ImageView, src: ImageView, x: int, y: int) -> int {
    clamp_to(y, dst.height)
}

/// The first column of the destination a draw writes to.
pub open spec fn draw_dsc(dst: ImageView, src: ImageView, x: int, y: int) -> int {
    clamp_to(x, dst.width)
}

/// How many rows a draw copies.
pub open spec fn draw_nrows(dst: ImageView, src: ImageView, x: int, y: int) -> int {
    min_int(src.height - draw_ssr(dst, src, x, y), dst.height - draw_dsr(dst, src, x, y))
}

/// How many columns a draw copies.
pub open spec fn draw_ncols(dst: ImageView, src: ImageView, x: int, y: int) -> int {
    min_int(src.width - draw_ssc(dst, src, x, y), dst.width - draw_dsc(dst, src, x, y))
}

impl Image {
    /// Sets every pixel of the rectangle of size `w` by `h` whose top-left
    /// corner is at `(x, y)` to the given color, clipped to the image.
    pub fn fill_rect(&mut self, x: i32, y: i32, w: u32, h: u32, color: Color)
        requires
            old(self)@.wf(),
        ensures
            final(self)@.wf(),
            final(self)@.width == old(self)@.width,
            final(self)@.height == old(self)@.height,
            final(self)@.tag == old(self)@.tag,
            final(self)@.metadata == old(self)@.metadata,
            forall|cc: int, rr: int| 0 <= cc < old(self)@.width && 0 <= rr < old(self)@.height
                ==> #[trigger] final(self)@.pixels[rr * old(self)@.width + cc]
                    == (if clamp_to(y as int, old(self)@.height) <= rr
                        < clamp_to(y + h, old(self)@.height)
                        && clamp_to(x as int, old(self)@.width) <= cc
                        < clamp_to(x + w, old(self)@.width) {
                        color
                    } else {
                        old(self)@.pixels[rr * old(self)@.width + cc]
                    }),
    {
        let ghost iw = self@.width;
        let ghost ih = self@.height;
        let sw = self.width;
        let sh = self.height;
        let start_row: u32 = clamp_i64(y as i64, sh);
        let end_row: u32 = clamp_i64(y as i64 + h as i64, sh);
        let start_col: u32 = clamp_i64(x as i64, sw);
        let end_col: u32 = clamp_i64(x as i64 + w as i64, sw);
        let ghost r0 = clamp_to(y as int, ih);
        let ghost r1 = clamp_to(y + h, ih);
        let ghost c0 = clamp_to(x as int, iw);
        let ghost c1 = clamp_to(x + w, iw);
        let mut row = start_row;
        while row < end_row
            invariant
                old(self)@.wf(),
                self@.wf(),
                iw == old(self)@.width,
                ih == old(self)@.height,
                self@.width == iw,
                self@.height == ih,
                self@.tag == old(self)@.tag,
                self@.metadata == old(self)@.metadata,
                r0 == start_row as int,
                r1 == end_row as int,
                c0 == start_col as int,
                c1 == end_col as int,
                start_row <= row,
                row <= end_row,
                r0 <= r1 <= ih,
                c0 <= c1 <= iw,
                forall|cc: int, rr: int| 0 <= cc < iw && 0 <= rr < ih
                    ==> #[trigger] self@.pixels[rr * iw + cc]
                        == (if r0 <= rr < row as int && c0 <= cc < c1 {
                            color
                        } else {
                            old(self)@.pixels[rr * iw + cc]
                        }),
            decreases end_row - row,
        {
            let mut col = start_col;
            while col < end_col
                invariant
                    old(self)@.wf(),
                    self@.wf(),
                    iw == old(self)@.width,
                    ih == old(self)@.height,
                    self@.width == iw,
                    self@.height == ih,
                    self@.tag == old(self)@.tag,
                    self@.metadata == old(self)@.metadata,
                    r0 == start_row as int,
                    r1 == end_row as int,
                    c0 == start_col as int,
                    c1 == end_col as int,
                    r0 <= row as int && (row as int) < r1,
                    start_col <= col,
                    col <= end_col,
                    r0 <= r1 <= ih,
                    c0 <= c1 <= iw,
                    forall|cc: int, rr: int| 0 <= cc < iw && 0 <= rr < ih
                        ==> #[trigger] self@.pixels[rr * iw + cc]
                            == (if (r0 <= rr < row as int && c0 <= cc < c1)
                                || (rr == row as int && c0 <= cc < col as int) {
                                color
                            } else {
                                old(self)@.pixels[rr * iw + cc]
                            }),
                decreases end_col - col,
            {
                self.set_pixel(col, row, color);
                proof {
                    assert forall|cc: int, rr: int| 0 <= cc < iw && 0 <= rr < ih
                        implies #[trigger] self@.pixels[rr * iw + cc]
                            == (if (r0 <= rr < row as int && c0 <= cc < c1)
                                || (rr == row as int && c0 <= cc < col as int + 1) {
                                color
                            } else {
                                old(self)@.pixels[rr * iw + cc]
                            }) by {
                        lemma_grid_index_inj(iw, cc, rr, col as int, row as int);
                        lemma_grid_index(iw, ih, cc, rr);
                        lemma_grid_index(iw, ih, col as int, row as int);
                    }
                }
                col = col + 1;
            }
            row = row + 1;
        }
    }

    /// A copy of this image flipped horizontally.
    pub fn flip_horz(&self) -> (r: Image)
        requires
            self@.wf(),
        ensures
            r@.wf(),
            r@.width == self@.width,
            r@.height == self@.height,
            r@.tag == self@.tag,
            r@.metadata == self@.metadata,
            forall|m: int| 0 <= m < r@.pixels.len()
                ==> #[trigger] r@.pixels[m]
                    == self@.pixels[(m / self@.width) * self@.width
                        + (self@.width - 1 - m % self@.width)],
    {
        let ghost iw = self@.width;
        let ghost ih = self@.height;
        let w = self.width;
        let h = self.height;
        let mut pixels: Vec<Color> = Vec::new();
        let mut rr: u32 = 0;
        while rr < h
            invariant
                self@.wf(),
                iw == self@.width,
                ih == self@.height,
                w == self.width,
                h == self.height,
                rr <= h,
                pixels@.len() == rr as int * iw,
                forall|m: int| 0 <= m < pixels@.len()
                    ==> #[trigger] pixels@[m]
                        == self@.pixels[(m / iw) * iw + (iw - 1 - m % iw)],
            decreases h - rr,
        {
            let mut cc: u32 = 0;
            while cc < w
                invariant
                    self@.wf(),
                    iw == self@.width,
                    ih == self@.height,
                    w == self.width,
                    h == self.height,
                    rr < h,
                    cc <= w,
                    pixels@.len() == rr as int * iw + cc as int,
                    forall|m: int| 0 <= m < pixels@.len()
                        ==> #[trigger] pixels@[m]
                            == self@.pixels[(m / iw) * iw + (iw - 1 - m % iw)],
                decreases w - cc,
            {
                proof {
                    lemma_grid_index(iw, ih, iw - 1 - cc as int, rr as int);
                    lemma_grid_index_div(iw, cc as int, rr as int);
                }
                let plen = self.pixels.len();
                proof {
                    assert(plen as int == self@.pixels.len());
                }
                let idx: usize = (rr as usize) * (w as usize) + ((w - 1 - cc) as usize);
                pixels.push(self.pixels[idx]);
                cc = cc + 1;
            }
            proof {
                assert(pixels@.len() == (rr + 1) as int * iw) by (nonlinear_arith)
                    requires
                        pixels@.len() == rr as int * iw + iw,
                {}
            }
            rr = rr + 1;
        }
        proof {
            assert(pixels@.len() == iw * ih) by (nonlinear_arith)
                requires
                    pixels@.len() == ih * iw,
            {}
        }
        let r = Image {
            tag: copy_chars(&self.tag),
            metadata: copy_i16s(&self.metadata),
            width: w,
            height: h,
            pixels,
        };
        r
    }

    /// A copy of this image flipped vertically.
    pub fn flip_vert(&self) -> (r: Image)
        requires
            self@.wf(),
        ensures
            r@.wf(),
            r@.width == self@.width,
            r@.height == self@.height,
            r@.tag == self@.tag,
            r@.metadata == self@.metadata,
            forall|m: int| 0 <= m < r@.pixels.len()
                ==> #[trigger] r@.pixels[m]
                    == self@.pixels[(self@.height - 1 - m / self@.width) * self@.width
                        + m % self@.width],
    {
        let ghost iw = self@.width;
        let ghost ih = self@.height;
        let w = self.width;
        let h = self.height;
        let mut pixels: Vec<Color> = Vec::new();
        let mut rr: u32 = 0;
        while rr < h
            invariant
                self@.wf(),
                iw == self@.width,
                ih == self@.height,
                w == self.width,
                h == self.height,
                rr <= h,
                pixels@.len() == rr as int * iw,
                forall|m: int| 0 <= m < pixels@.len()
                    ==> #[trigger] pixels@[m]
                        == self@.pixels[(ih - 1 - m / iw) * iw + m % iw],
            decreases h - rr,
        {
            let mut cc: u32 = 0;
            while cc < w
                invariant
                    self@.wf(),
                    iw == self@.width,
                    ih == self@.height,
                    w == self.width,
                    h == self.height,
                    rr < h,
                    cc <= w,
                    pixels@.len() == rr as int * iw + cc as int,
                    forall|m: int| 0 <= m < pixels@.len()
                        ==> #[trigger] pixels@[m]
                            == self@.pixels[(ih - 1 - m / iw) * iw + m % iw],
                decreases w - cc,
            {
                proof {
                    lemma_grid_index(iw, ih, cc as int, ih - 1 - rr as int);
                    lemma_grid_index_div(iw, cc as int, rr as int);
                }
                let plen = self.pixels.len();
                proof {
                    assert(plen as int == self@.pixels.len());
                }
                let idx: usize = ((h - 1 - rr) as usize) * (w as usize) + (cc as usize);
                pixels.push(self.pixels[idx]);
                cc = cc + 1;
            }
            proof {
                assert(pixels@.len() == (rr + 1) as int * iw) by (nonlinear_arith)
                    requires
                        pixels@.len() == rr as int * iw + iw,
                {}
            }
            rr = rr + 1;
        }
        proof {
            assert(pixels@.len() == iw * ih) by (nonlinear_arith)
                requires
                    pixels@.len() == ih * iw,
            {}
        }
        Image {
            tag: copy_chars(&self.tag),
            metadata: copy_i16s(&self.metadata),
            width: w,
            height: h,
            pixels,
        }
    }

    /// A copy of this image rotated ninety degrees clockwise: the result is
    /// as tall as this image is wide.
    pub fn rotate_cw(&self) -> (r: Image)
        requires
            self@.wf(),
        ensures
            r@.wf(),
            r@.width == self@.height,
            r@.height == self@.width,
            r@.tag == self@.tag,
            r@.metadata == self@.metadata,
            forall|m: int| 0 <= m < r@.pixels.len()
                ==> #[trigger] r@.pixels[m]
                    == self@.pixels[self@.width * (self@.height - 1 - m % self@.height)
                        + m / self@.height],
    {
        let ghost iw = self@.width;
        let ghost ih = self@.height;
        let w = self.width;
        let h = self.height;
        let mut pixels: Vec<Color> = Vec::new();
        let mut rr: u32 = 0;
        while rr < w
            invariant
                self@.wf(),
                iw == self@.width,
                ih == self@.height,
                w == self.width,
                h == self.height,
                rr <= w,
                pixels@.len() == rr as int * ih,
                forall|m: int| 0 <= m < pixels@.len()
                    ==> #[trigger] pixels@[m]
                        == self@.pixels[iw * (ih - 1 - m % ih) + m / ih],
            decreases w - rr,
        {
            let mut cc: u32 = 0;
            while cc < h
                invariant
                    self@.wf(),
                    iw == self@.width,
                    ih == self@.height,
                    w == self.width,
                    h == self.height,
                    rr < w,
                    cc <= h,
                    pixels@.len() == rr as int * ih + cc as int,
                    forall|m: int| 0 <= m < pixels@.len()
                        ==> #[trigger] pixels@[m]
                            == self@.pixels[iw * (ih - 1 - m % ih) + m / ih],
                decreases h - cc,
            {
                proof {
                    lemma_grid_index(iw, ih, rr as int, ih - 1 - cc as int);
                    lemma_grid_index_div(ih, cc as int, rr as int);
                    assert(iw * (ih - 1 - cc as int) == (ih - 1 - cc as int) * iw)
                        by (nonlinear_arith)
                    {}
                }
                let plen = self.pixels.len();
                proof {
                    assert(plen as int == self@.pixels.len());
                }
                let idx: usize = (w as usize) * ((h - 1 - cc) as usize) + (rr as usize);
                pixels.push(self.pixels[idx]);
                cc = cc + 1;
            }
            proof {
                assert(pixels@.len() == (rr + 1) as int * ih) by (nonlinear_arith)
                    requires
                        pixels@.len() == rr as int * ih + ih,
                {}
            }
            rr = rr + 1;
        }
        let r = Image {
            tag: copy_chars(&self.tag),
            metadata: copy_i16s(&self.metadata),
            width: h,
            height: w,
            pixels,
        };
        proof {
            assert(r@.pixels.len() == ih * iw) by (nonlinear_arith)
                requires
                    r@.pixels.len() == iw * ih,
            {}
        }
        r
    }

    /// A copy of this image rotated ninety degrees counterclockwise.
    pub fn rotate_ccw(&self) -> (r: Image)
        requires
            self@.wf(),
        ensures
            r@.wf(),
            r@.width == self@.height,
            r@.height == self@.width,
            r@.tag == self@.tag,
            r@.metadata == self@.metadata,
            forall|m: int| 0 <= m < r@.pixels.len()
                ==> #[trigger] r@.pixels[m]
                    == self@.pixels[self@.width * (m % self@.height)
                        + (self@.width - 1 - m / self@.height)],
    {
        let ghost iw = self@.width;
        let ghost ih = self@.height;
        let w = self.width;
        let h = self.height;
        let mut pixels: Vec<Color> = Vec::new();
        let mut rr: u32 = 0;
        while rr < w
            invariant
                self@.wf(),
                iw == self@.width,
                ih == self@.height,
                w == self.width,
                h == self.height,
                rr <= w,
                pixels@.len() == rr as int * ih,
                forall|m: int| 0 <= m < pixels@.len()
                    ==> #[trigger] pixels@[m]
                        == self@.pixels[iw * (m % ih) + (iw - 1 - m / ih)],
            decreases w - rr,
        {
            let mut cc: u32 = 0;
            while cc < h
                invariant
                    self@.wf(),
                    iw == self@.width,
                    ih == self@.height,
                    w == self.width,
                    h == self.height,
                    rr < w,
                    cc <= h,
                    pixels@.len() == rr as int * ih + cc as int,
                    forall|m: int| 0 <= m < pixels@.len()
                        ==> #[trigger] pixels@[m]
                            == self@.pixels[iw * (m % ih) + (iw - 1 - m / ih)],
                decreases h - cc,
            {
                proof {
                    lemma_grid_index(iw, ih, iw - 1 - rr as int, cc as int);
                    lemma_grid_index_div(ih, cc as int, rr as int);
                    assert(iw * (cc as int) == (cc as int) * iw) by (nonlinear_arith)
                    {}
                }
                let plen = self.pixels.len();
                proof {
                    assert(plen as int == self@.pixels.len());
                }
                let idx: usize = (w as usize) * (cc as usize) + ((w - 1 - rr) as usize);
                pixels.push(self.pixels[idx]);
                cc = cc + 1;
            }
            proof {
                assert(pixels@.len() == (rr + 1) as int * ih) by (nonlinear_arith)
                    requires
                        pixels@.len() == rr as int * ih + ih,
                {}
            }
            rr = rr + 1;
        }
        let r = Image {
            tag: copy_chars(&self.tag),
            metadata: copy_i16s(&self.metadata),
            width: h,
            height: w,
            pixels,
        };
        proof {
            assert(r@.pixels.len() == ih * iw) by (nonlinear_arith)
                requires
                    r@.pixels.len() == iw * ih,
            {}
        }
        r
    }

    /// Draws the pixels of `src` onto this image, placing the top-left
    /// corner of `src` at `(x, y)` and skipping transparent source pixels,
    /// clipped to this image.
    pub fn draw(&mut self, src: &Image, x: i32, y: i32)
        requires
            old(self)@.wf(),
            src@.wf(),
        ensures
            final(self)@.wf(),
            final(self)@.width == old(self)@.width,
            final(self)@.height == old(self)@.height,
            final(self)@.tag == old(self)@.tag,
            final(self)@.metadata == old(self)@.metadata,
            forall|cc: int, rr: int| 0 <= cc < old(self)@.width && 0 <= rr < old(self)@.height
                ==> #[trigger] final(self)@.pixels[rr * old(self)@.width + cc]
                    == ({
                        let dsr = draw_dsr(old(self)@, src@, x as int, y as int);
                        let dsc = draw_dsc(old(self)@, src@, x as int, y as int);
                        let ssr = draw_ssr(old(self)@, src@, x as int, y as int);
                        let ssc = draw_ssc(old(self)@, src@, x as int, y as int);
                        let nr = draw_nrows(old(self)@, src@, x as int, y as int);
                        let nc = draw_ncols(old(self)@, src@, x as int, y as int);
                        if dsr <= rr < dsr + nr && dsc <= cc < dsc + nc
                            && src@.pixel(ssc + (cc - dsc), ssr + (rr - dsr)) != Color::C0 {
                            src@.pixel(ssc + (cc - dsc), ssr + (rr - dsr))
                        } else {
                            old(self)@.pixels[rr * old(self)@.width + cc]
                        }
                    }),
    {
        let ghost iw = self@.width;
        let ghost ih = self@.height;
        let ghost sv = src@;
        let sw = src.width;
        let sh = src.height;
        let dw = self.width;
        let dh = self.height;
        let src_start_row: u32 = clamp_i64(-(y as i64), sh);
        let src_start_col: u32 = clamp_i64(-(x as i64), sw);
        let dst_start_row: u32 = clamp_i64(y as i64, dh);
        let dst_start_col: u32 = clamp_i64(x as i64, dw);
        let num_rows: u32 = if sh - src_start_row < dh - dst_start_row {
            sh - src_start_row
        } else {
            dh - dst_start_row
        };
        let num_cols: u32 = if sw - src_start_col < dw - dst_start_col {
            sw - src_start_col
        } else {
            dw - dst_start_col
        };
        let ghost dsr = draw_dsr(old(self)@, sv, x as int, y as int);
        let ghost dsc = draw_dsc(old(self)@, sv, x as int, y as int);
        let ghost ssr = draw_ssr(old(self)@, sv, x as int, y as int);
        let ghost ssc = draw_ssc(old(self)@, sv, x as int, y as int);
        let ghost nr = draw_nrows(old(self)@, sv, x as int, y as int);
        let ghost nc = draw_ncols(old(self)@, sv, x as int, y as int);
        proof {
            assert(dsr == dst_start_row as int);
            assert(dsc == dst_start_col as int);
            assert(ssr == src_start_row as int);
            assert(ssc == src_start_col as int);
            assert(nr == num_rows as int);
            assert(nc == num_cols as int);
        }
        let mut rr: u32 = 0;
        while rr < num_rows
            invariant
                old(self)@.wf(),
                self@.wf(),
                sv.wf(),
                sv == src@,
                iw == old(self)@.width,
                ih == old(self)@.height,
                self@.width == iw,
                self@.height == ih,
                self@.tag == old(self)@.tag,
                self@.metadata == old(self)@.metadata,
                sw == src.width,
                sh == src.height,
                dsr == dst_start_row as int,
                dsc == dst_start_col as int,
                ssr == src_start_row as int,
                ssc == src_start_col as int,
                dsr + nr <= ih,
                dsc + nc <= iw,
                ssr + nr <= sv.height,
                ssc + nc <= sv.width,
                0 <= dsr && 0 <= dsc && 0 <= ssr && 0 <= ssc && 0 <= nr && 0 <= nc,
                rr <= num_rows,
                nr == num_rows as int,
                nc == num_cols as int,
                forall|cc2: int, rr2: int| 0 <= cc2 < iw && 0 <= rr2 < ih
                    ==> #[trigger] self@.pixels[rr2 * iw + cc2]
                        == (if dsr <= rr2 < dsr + rr as int && dsc <= cc2 < dsc + nc
                            && sv.pixel(ssc + (cc2 - dsc), ssr + (rr2 - dsr)) != Color::C0 {
                            sv.pixel(ssc + (cc2 - dsc), ssr + (rr2 - dsr))
                        } else {
                            old(self)@.pixels[rr2 * iw + cc2]
                        }),
            decreases num_rows - rr,
        {
            let mut cc: u32 = 0;
            while cc < num_cols
                invariant
                    old(self)@.wf(),
                    self@.wf(),
                    sv.wf(),
                    sv == src@,
                    iw == old(self)@.width,
                    ih == old(self)@.height,
                    self@.width == iw,
                    self@.height == ih,
                    self@.tag == old(self)@.tag,
                    self@.metadata == old(self)@.metadata,
                    sw == src.width,
                    sh == src.height,
                    dsr == dst_start_row as int,
                    dsc == dst_start_col as int,
                    ssr == src_start_row as int,
                    ssc == src_start_col as int,
                    dsr + nr <= ih,
                    dsc + nc <= iw,
                    ssr + nr <= sv.height,
                    ssc + nc <= sv.width,
                    0 <= dsr && 0 <= dsc && 0 <= ssr && 0 <= ssc && 0 <= nr && 0 <= nc,
                    rr < num_rows,
                    cc <= num_cols,
                    nr == num_rows as int,
                    nc == num_cols as int,
                    forall|cc2: int, rr2: int| 0 <= cc2 < iw && 0 <= rr2 < ih
                        ==> #[trigger] self@.pixels[rr2 * iw + cc2]
                            == (if (dsr <= rr2 < dsr + rr as int && dsc <= cc2 < dsc + nc
                                && sv.pixel(ssc + (cc2 - dsc), ssr + (rr2 - dsr))
                                    != Color::C0)
                                || (rr2 == dsr + rr as int && dsc <= cc2 < dsc + cc as int
                                && sv.pixel(ssc + (cc2 - dsc), ssr + (rr2 - dsr))
                                    != Color::C0) {
                                sv.pixel(ssc + (cc2 - dsc), ssr + (rr2 - dsr))
                            } else {
                                old(self)@.pixels[rr2 * iw + cc2]
                            }),
                decreases num_cols - cc,
            {
                proof {
                    lemma_grid_index(sv.width, sv.height, ssc + cc as int, ssr + rr as int);
                }
                let splen = src.pixels.len();
                proof {
                    assert(splen as int == sv.pixels.len());
                }
                let sidx: usize = ((src_start_row + rr) as usize) * (sw as usize)
                    + ((src_start_col + cc) as usize);
                let color = src.pixels[sidx];
                if color.index() != 0 {
                    self.set_pixel(dst_start_col + cc, dst_start_row + rr, color);
                }
                proof {
                    assert(color == sv.pixel(ssc + cc as int, ssr + rr as int));
                    if crate::color::color_index(color) == 0 {
                        assert(color == Color::C0) by {
                            assert(crate::color::color_of_index(0) == Color::C0);
                            assert(crate::color::color_of_index(
                                crate::color::color_index(color)) == color);
                        }
                    } else {
                        assert(color != Color::C0);
                    }
                    assert forall|cc2: int, rr2: int| 0 <= cc2 < iw && 0 <= rr2 < ih
                        implies #[trigger] self@.pixels[rr2 * iw + cc2]
                            == (if (dsr <= rr2 < dsr + rr as int && dsc <= cc2 < dsc + nc
                                && sv.pixel(ssc + (cc2 - dsc), ssr + (rr2 - dsr))
                                    != Color::C0)
                                || (rr2 == dsr + rr as int
                                && dsc <= cc2 < dsc + cc as int + 1
                                && sv.pixel(ssc + (cc2 - dsc), ssr + (rr2 - dsr))
                                    != Color::C0) {
                                sv.pixel(ssc + (cc2 - dsc), ssr + (rr2 - dsr))
                            } else {
                                old(self)@.pixels[rr2 * iw + cc2]
                            }) by {
                        lemma_grid_index_inj(iw, cc2, rr2, dsc + cc as int, dsr + rr as int);
                        lemma_grid_index(iw, ih, cc2, rr2);
                        lemma_grid_index(iw, ih, dsc + cc as int, dsr + rr as int);
                    }
                }
                cc = cc + 1;
            }
            rr = rr + 1;
        }
    }

    /// A copy of this image cropped to the given size: pixels beyond the old
    /// bounds are transparent, and the copy carries no tag or metadata.
    pub fn crop(&self, new_width: u32, new_height: u32) -> (r: Image)
        requires
            self@.wf(),
            new_width as int * new_height as int <= usize::MAX,
        ensures
            r@.wf(),
            r@.width == new_width as int,
            r@.height == new_height as int,
            r@.tag.len() == 0,
            r@.metadata.len() == 0,
            forall|cc: int, rr: int| 0 <= cc < new_width && 0 <= rr < new_height
                ==> #[trigger] r@.pixels[rr * new_width + cc]
                    == (if cc < self@.width && rr < self@.height {
                        self@.pixel(cc, rr)
                    } else {
                        Color::C0
                    }),
    {
        let mut out = Image::new(new_width, new_height);
        out.draw(self, 0, 0);
        proof {
            let ov = out@;
            let nw = new_width as int;
            let nh = new_height as int;
            assert forall|cc: int, rr: int| 0 <= cc < nw && 0 <= rr < nh
                implies #[trigger] ov.pixels[rr * nw + cc]
                    == (if cc < self@.width && rr < self@.height {
                        self@.pixel(cc, rr)
                    } else {
                        Color::C0
                    }) by {
                lemma_grid_index(nw, nh, cc, rr);
            }
        }
        out
    }
}

/// A copy of a character vector.
fn copy_chars(v: &Vec<char>) -> (r: Vec<char>)
    ensures
        r@ == v@,
{
    let mut r: Vec<char> = Vec::new();
    let mut k: usize = 0;
    while k < v.len()
        invariant
            k <= v@.len(),
            r@ =~= v@.subrange(0, k as int),
        decreases v@.len() - k,
    {
        r.push(v[k]);
        k = k + 1;
    }
    proof {
        assert(v@.subrange(0, v@.len() as int) =~= v@);
    }
    r
}

/// A copy of a metadata vector.
fn copy_i16s(v: &Vec<i16>) -> (r: Vec<i16>)
    ensures
        r@ == v@,
{
    let mut r: Vec<i16> = Vec::new();
    let mut k: usize = 0;
    while k < v.len()
        invariant
            k <= v@.len(),
            r@ =~= v@.subrange(0, k as int),
        decreases v@.len() - k,
    {
        r.push(v[k]);
        k = k + 1;
    }
    proof {
        assert(v@.subrange(0, v@.len() as int) =~= v@);
    }
    r
}

/// `v` clamped into `[0, hi]`, on machine integers.
fn clamp_i64(v: i64, hi: u32) -> (r: u32)
    ensures
        r as int == clamp_to(v as int, hi as int),
{
    if v < 0 {
        0
    } else if v > hi as i64 {
        hi
    } else {
        v as u32
    }
}

} // verus!
