//! Whole documents: zero or more palettes and zero or more images, with the
//! header that selects the format version and its feature flags.
//!
//! Version 0 is `ahi0 w<width> h<height> n<count>`: no palettes, one shared
//! image size, no tags, no metadata.  Version 1 is
//! `ahi1 f<flags> p<count> i<count>` with an optional global ` w<w> h<h>`,
//! where flag bit 0 means per-image sizes, bit 1 string tags and bit 2
//! metadata lists.  Writing picks version 0 whenever it can, and otherwise
//! sets exactly the flags for the features actually present.

use vstd::prelude::*;
use crate::ascii::{LA, LF, LH, LI, LN, LP, LW, NL, SP, D0, D1};
use crate::error::Error;
use crate::color::Color;
use crate::image::{
    enc_grid, parse_grid, Image, ImageView,
};
use crate::palette::{
    enc_palette, entry_canonical, parse_palette, Palette, Rgba,
};
use crate::text::{
    enc_i16_list, enc_quoted_string, parse_i16_list, parse_quoted_string, read_list_of_i16s,
    read_quoted_string, write_i16_list, write_quoted_string,
};
use crate::token::{
    dec_digits, enc_hex_upper, lemma_subrange_index, lemma_subrange_split, parse_byte,
    parse_header_uint, parse_hex_u32, read_exact_byte, read_header_uint, read_hex_u32,
    write_dec_u32, write_hex_u32,
};
use crate::text::{lemma_parse_i16_list_of_enc, lemma_parse_quoted_string_of_enc};

verus! {

/// The mathematical model of a document: its palettes and its images.
#[verifier::ext_equal]
pub ghost struct CollectionView {
    /// The sixteen-entry palettes, in order.
    pub palettes: Seq<Seq<Rgba>>,
    /// The images, in order.
    pub images: Seq<ImageView>,
}

impl CollectionView {
    /// Every palette has its sixteen entries and every image a full grid.
    pub open spec fn wf(self) -> bool {
        &&& forall|k: int| 0 <= k < self.palettes.len()
            ==> (#[trigger] self.palettes[k]).len() == 16
        &&& forall|k: int| 0 <= k < self.images.len() ==> (#[trigger] self.images[k]).wf()
    }
}

/// A collection of palettes and/or images.
#[derive(Debug)]
pub struct Collection {
    /// The palettes in this collection.
    pub palettes: Vec<Palette>,
    /// The images in this collection.
    pub images: Vec<Image>,
}

impl View for Collection {
    type V = CollectionView;

    open spec fn view(&self) -> CollectionView {
        CollectionView {
            palettes: self.palettes@.map_values(|p: Palette| p@),
            images: self.images@.map_values(|img: Image| img@),
        }
    }
}

// ===================================================================== //
//  Header feature selection                                             //
// ===================================================================== //

/// The size shared by every image, if there is one: the empty list counts
/// as sharing the zero size.
pub open spec fn uniform_size(imgs: Seq<ImageView>) -> Option<(int, int)> {
    if imgs.len() == 0 {
        Some((0int, 0int))
    } else if forall|k: int| 0 <= k < imgs.len()
        ==> (#[trigger] imgs[k]).width == imgs[0].width && imgs[k].height == imgs[0].height {
        Some((imgs[0].width, imgs[0].height))
    } else {
        None::<(int, int)>
    }
}

/// Whether any image carries a nonempty tag.
pub open spec fn any_tags(imgs: Seq<ImageView>) -> bool {
    exists|k: int| 0 <= k < imgs.len() && (#[trigger] imgs[k]).tag.len() > 0
}

/// Whether any image carries nonempty metadata.
pub open spec fn any_metadata(imgs: Seq<ImageView>) -> bool {
    exists|k: int| 0 <= k < imgs.len() && (#[trigger] imgs[k]).metadata.len() > 0
}

/// Whether the compact version-0 form can represent the collection.
pub open spec fn use_v0(c: CollectionView) -> bool {
    &&& c.palettes.len() == 0
    &&& uniform_size(c.images) is Some
    &&& !any_tags(c.images)
    &&& !any_metadata(c.images)
}

/// The version-1 flag word: bit 0 for per-image sizes, bit 1 for tags,
/// bit 2 for metadata.
pub open spec fn collection_flags(c: CollectionView) -> int {
    (if uniform_size(c.images) is None { 1int } else { 0int })
        + (if any_tags(c.images) { 2int } else { 0int })
        + (if any_metadata(c.images) { 4int } else { 0int })
}

// ===================================================================== //
//  Parsing                                                              //
// ===================================================================== //

/// `np` palette lines in a row.
pub open spec fn parse_palettes(s: Seq<u8>, i: int, np: int, acc: Seq<Seq<Rgba>>) -> Result<
    (Seq<Seq<Rgba>>, int),
    Error,
>
    decreases np,
{
    if np <= 0 {
        Ok((acc, i))
    } else {
        match parse_palette(s, i) {
            Ok((p, j)) => parse_palettes(s, j, np - 1, acc.push(p)),
            Err(e) => Err(e),
        }
    }
}

/// One image block: a blank line, then the tag line, metadata line and size
/// line that the flags call for, then the pixel grid.
pub open spec fn parse_image_block(
    s: Seq<u8>,
    i: int,
    tags: bool,
    metas: bool,
    dims: bool,
    gw: int,
    gh: int,
) -> Result<(ImageView, int), Error> {
    match parse_byte(s, i, NL) {
        Ok(j0) => {
            let tag_res: Result<(Seq<char>, int), Error> = if tags {
                match parse_quoted_string(s, j0) {
                    Ok((t, j)) => match parse_byte(s, j, NL) {
                        Ok(j2) => Ok((t, j2)),
                        Err(e) => Err(e),
                    },
                    Err(e) => Err(e),
                }
            } else {
                Ok((Seq::<char>::empty(), j0))
            };
            match tag_res {
                Ok((tag, j1)) => {
                    let meta_res: Result<(Seq<i16>, int), Error> = if metas {
                        match parse_i16_list(s, j1) {
                            Ok((m, j)) => match parse_byte(s, j, NL) {
                                Ok(j2) => Ok((m, j2)),
                                Err(e) => Err(e),
                            },
                            Err(e) => Err(e),
                        }
                    } else {
                        Ok((Seq::<i16>::empty(), j1))
                    };
                    match meta_res {
                        Ok((meta, j2)) => {
                            let dim_res: Result<((int, int), int), Error> = if dims {
                                match parse_byte(s, j2, LW) {
                                    Ok(ja) => match parse_header_uint(s, ja, SP) {
                                        Ok((w, jb)) => match parse_byte(s, jb, LH) {
                                            Ok(jc) => match parse_header_uint(s, jc, NL) {
                                                Ok((h, jd)) => Ok(((w, h), jd)),
                                                Err(e) => Err(e),
                                            },
                                            Err(e) => Err(e),
                                        },
                                        Err(e) => Err(e),
                                    },
                                    Err(e) => Err(e),
                                }
                            } else {
                                Ok(((gw, gh), j2))
                            };
                            match dim_res {
                                Ok(((w, h), j3)) => {
                                    match parse_grid(s, j3, w, h, Seq::<Color>::empty()) {
                                        Ok((pixels, j4)) => Ok((
                                            ImageView {
                                                tag,
                                                metadata: meta,
                                                width: w,
                                                height: h,
                                                pixels,
                                            },
                                            j4,
                                        )),
                                        Err(e) => Err(e),
                                    }
                                },
                                Err(e) => Err(e),
                            }
                        },
                        Err(e) => Err(e),
                    }
                },
                Err(e) => Err(e),
            }
        },
        Err(e) => Err(e),
    }
}

/// `n` image blocks in a row.
pub open spec fn parse_images(
    s: Seq<u8>,
    i: int,
    n: int,
    tags: bool,
    metas: bool,
    dims: bool,
    gw: int,
    gh: int,
    acc: Seq<ImageView>,
) -> Result<(Seq<ImageView>, int), Error>
    decreases n,
{
    if n <= 0 {
        Ok((acc, i))
    } else {
        match parse_image_block(s, i, tags, metas, dims, gw, gh) {
            Ok((img, j)) => parse_images(s, j, n - 1, tags, metas, dims, gw, gh, acc.push(img)),
            Err(e) => Err(e),
        }
    }
}

/// The palette block and image blocks that end a document, under the given
/// flags and global size.
pub open spec fn parse_body_rest(
    s: Seq<u8>,
    i: int,
    flags: int,
    np: int,
    n: int,
    gw: int,
    gh: int,
) -> Result<(CollectionView, int), Error> {
    let dims = flags % 2 == 1;
    let tags = (flags / 2) % 2 == 1;
    let metas = (flags / 4) % 2 == 1;
    let pal_res: Result<(Seq<Seq<Rgba>>, int), Error> = if np > 0 {
        match parse_byte(s, i, NL) {
            Ok(j6) => parse_palettes(s, j6, np, Seq::<Seq<Rgba>>::empty()),
            Err(e) => Err(e),
        }
    } else {
        Ok((Seq::<Seq<Rgba>>::empty(), i))
    };
    match pal_res {
        Ok((pals, j7)) => match parse_images(s, j7, n, tags, metas, dims, gw, gh,
            Seq::<ImageView>::empty()) {
            Ok((imgs, j)) => Ok((CollectionView { palettes: pals, images: imgs }, j)),
            Err(e) => Err(e),
        },
        Err(e) => Err(e),
    }
}

/// The version-0 body: the global size and count, then the image blocks.
pub open spec fn parse_v0_body(s: Seq<u8>, i: int) -> Result<(CollectionView, int), Error> {
    match parse_byte(s, i, LW) {
        Ok(ja) => match parse_header_uint(s, ja, SP) {
            Ok((gw, jb)) => match parse_byte(s, jb, LH) {
                Ok(jc) => match parse_header_uint(s, jc, SP) {
                    Ok((gh, jd)) => match parse_byte(s, jd, LN) {
                        Ok(je) => match parse_header_uint(s, je, NL) {
                            Ok((n, jf)) => parse_body_rest(s, jf, 0, 0, n, gw, gh),
                            Err(e) => Err(e),
                        },
                        Err(e) => Err(e),
                    },
                    Err(e) => Err(e),
                },
                Err(e) => Err(e),
            },
            Err(e) => Err(e),
        },
        Err(e) => Err(e),
    }
}

/// The version-1 body: the flag word and counts, the global size unless the
/// flags say each image carries its own, then the palettes and images.
pub open spec fn parse_v1_body(s: Seq<u8>, i: int) -> Result<(CollectionView, int), Error> {
    match parse_byte(s, i, LF) {
        Ok(j0) => match parse_hex_u32(s, j0, SP) {
            Ok((flags, j1)) => match parse_byte(s, j1, LP) {
                Ok(j2) => match parse_header_uint(s, j2, SP) {
                    Ok((np, j3)) => match parse_byte(s, j3, LI) {
                        Ok(j4) => if flags % 2 == 1 {
                            match parse_header_uint(s, j4, NL) {
                                Ok((n, j5)) => parse_body_rest(s, j5, flags, np, n, 0, 0),
                                Err(e) => Err(e),
                            }
                        } else {
                            match parse_header_uint(s, j4, SP) {
                                Ok((n, ja)) => match parse_byte(s, ja, LW) {
                                    Ok(jb) => match parse_header_uint(s, jb, SP) {
                                        Ok((gw, jc)) => match parse_byte(s, jc, LH) {
                                            Ok(jd) => match parse_header_uint(s, jd, NL) {
                                                Ok((gh, j5)) => parse_body_rest(s, j5, flags,
                                                    np, n, gw, gh),
                                                Err(e) => Err(e),
                                            },
                                            Err(e) => Err(e),
                                        },
                                        Err(e) => Err(e),
                                    },
                                    Err(e) => Err(e),
                                },
                                Err(e) => Err(e),
                            }
                        },
                        Err(e) => Err(e),
                    },
                    Err(e) => Err(e),
                },
                Err(e) => Err(e),
            },
            Err(e) => Err(e),
        },
        Err(e) => Err(e),
    }
}

/// The header after the version field, and everything that follows it.
pub open spec fn parse_collection_body(s: Seq<u8>, i: int, version: int) -> Result<
    (CollectionView, int),
    Error,
> {
    if version == 0 {
        parse_v0_body(s, i)
    } else {
        parse_v1_body(s, i)
    }
}

/// A whole document: the `ahi` keyword, the version, and the body.
pub open spec fn parse_collection(s: Seq<u8>) -> Result<(CollectionView, int), Error> {
    match parse_byte(s, 0, LA) {
        Ok(i1) => match parse_byte(s, i1, LH) {
            Ok(i2) => match parse_byte(s, i2, LI) {
                Ok(i3) => match parse_header_uint(s, i3, SP) {
                    Ok((version, i4)) => if version != 0 && version != 1 {
                        Err(Error::UnsupportedVersion(version as u32))
                    } else {
                        parse_collection_body(s, i4, version)
                    },
                    Err(e) => Err(e),
                },
                Err(e) => Err(e),
            },
            Err(e) => Err(e),
        },
        Err(e) => Err(e),
    }
}

/// The value a document decodes to, disregarding how many bytes it took.
pub open spec fn decode_collection(s: Seq<u8>) -> Result<CollectionView, Error> {
    match parse_collection(s) {
        Ok((c, _)) => Ok(c),
        Err(e) => Err(e),
    }
}

/// Mapping a view function commutes with appending one element.
proof fn lemma_map_values_push<A, B>(s: Seq<A>, f: spec_fn(A) -> B, x: A)
    ensures
        s.push(x).map_values(f) =~= s.map_values(f).push(f(x)),
{
}

impl Collection {
    /// Returns a new, empty collection.
    pub fn new() -> (c: Collection)
        ensures
            c@.palettes.len() == 0,
            c@.images.len() == 0,
            c@.wf(),
    {
        Collection { palettes: Vec::new(), images: Vec::new() }
    }

    /// Reads a collection from the AHI text form.  Trailing bytes after the
    /// document are ignored, as the grammar says where it ends.
    pub fn read(data: &[u8]) -> (r: Result<Collection, Error>)
        ensures
            match r {
                Ok(c) => decode_collection(data@) == Ok::<CollectionView, Error>(c@)
                    && c@.wf(),
                Err(e) => decode_collection(data@) == Err::<CollectionView, Error>(e),
            },
    {
        let s = data;
        let i1 = match read_exact_byte(s, 0, LA) {
            Ok(j) => j,
            Err(e) => return Err(e),
        };
        let i2 = match read_exact_byte(s, i1, LH) {
            Ok(j) => j,
            Err(e) => return Err(e),
        };
        let i3 = match read_exact_byte(s, i2, LI) {
            Ok(j) => j,
            Err(e) => return Err(e),
        };
        let (version, i4) = match read_header_uint(s, i3, SP) {
            Ok(p) => p,
            Err(e) => return Err(e),
        };
        if version != 0 && version != 1 {
            return Err(Error::UnsupportedVersion(version));
        }
        if version == 0 {
            let ja = match read_exact_byte(s, i4, LW) {
                Ok(j) => j,
                Err(e) => return Err(e),
            };
            let (gw, jb) = match read_header_uint(s, ja, SP) {
                Ok(p) => p,
                Err(e) => return Err(e),
            };
            let jc = match read_exact_byte(s, jb, LH) {
                Ok(j) => j,
                Err(e) => return Err(e),
            };
            let (gh, jd) = match read_header_uint(s, jc, SP) {
                Ok(p) => p,
                Err(e) => return Err(e),
            };
            let je = match read_exact_byte(s, jd, LN) {
                Ok(j) => j,
                Err(e) => return Err(e),
            };
            let (n, jf) = match read_header_uint(s, je, NL) {
                Ok(p) => p,
                Err(e) => return Err(e),
            };
            let images = match read_image_blocks(s, jf, n, false, false, false, gw, gh) {
                Ok((images, _)) => images,
                Err(e) => return Err(e),
            };
            let c = Collection { palettes: Vec::new(), images };
            proof {
                assert(c@.palettes =~= Seq::<Seq<Rgba>>::empty());
            }
            Ok(c)
        } else {
            let j0 = match read_exact_byte(s, i4, LF) {
                Ok(j) => j,
                Err(e) => return Err(e),
            };
            let (flags, j1) = match read_hex_u32(s, j0, SP) {
                Ok(p) => p,
                Err(e) => return Err(e),
            };
            let j2 = match read_exact_byte(s, j1, LP) {
                Ok(j) => j,
                Err(e) => return Err(e),
            };
            let (np, j3) = match read_header_uint(s, j2, SP) {
                Ok(p) => p,
                Err(e) => return Err(e),
            };
            let j4 = match read_exact_byte(s, j3, LI) {
                Ok(j) => j,
                Err(e) => return Err(e),
            };
            let dims = flags & 1 != 0;
            let tags = flags & 2 != 0;
            let metas = flags & 4 != 0;
            proof {
                assert((flags & 1 != 0) == (flags % 2 == 1)) by (bit_vector);
                assert((flags & 2 != 0) == ((flags / 2) % 2 == 1)) by (bit_vector);
                assert((flags & 4 != 0) == ((flags / 4) % 2 == 1)) by (bit_vector);
            }
            let (n, gw, gh, j5) = if dims {
                let (n, j5) = match read_header_uint(s, j4, NL) {
                    Ok(p) => p,
                    Err(e) => return Err(e),
                };
                (n, 0u32, 0u32, j5)
            } else {
                let (n, ja) = match read_header_uint(s, j4, SP) {
                    Ok(p) => p,
                    Err(e) => return Err(e),
                };
                let jb = match read_exact_byte(s, ja, LW) {
                    Ok(j) => j,
                    Err(e) => return Err(e),
                };
                let (gw, jc) = match read_header_uint(s, jb, SP) {
                    Ok(p) => p,
                    Err(e) => return Err(e),
                };
                let jd = match read_exact_byte(s, jc, LH) {
                    Ok(j) => j,
                    Err(e) => return Err(e),
                };
                let (gh, je) = match read_header_uint(s, jd, NL) {
                    Ok(p) => p,
                    Err(e) => return Err(e),
                };
                (n, gw, gh, je)
            };
            let (palettes, j7) = if np > 0 {
                let j6 = match read_exact_byte(s, j5, NL) {
                    Ok(j) => j,
                    Err(e) => return Err(e),
                };
                match read_palette_lines(s, j6, np) {
                    Ok(p) => p,
                    Err(e) => return Err(e),
                }
            } else {
                (Vec::new(), j5)
            };
            proof {
                if np == 0 {
                    assert(palettes@.map_values(|p: Palette| p@)
                        =~= Seq::<Seq<Rgba>>::empty());
                }
            }
            let images = match read_image_blocks(s, j7, n, tags, metas, dims, gw, gh) {
                Ok((images, _)) => images,
                Err(e) => return Err(e),
            };
            Ok(Collection { palettes, images })
        }
    }
}

/// Reads `np` palette lines in a row.
fn read_palette_lines(data: &[u8], pos: usize, np: u32) -> (r: Result<
    (Vec<Palette>, usize),
    Error,
>)
    requires
        pos <= data@.len(),
    ensures
        match r {
            Ok((ps, j)) => parse_palettes(data@, pos as int, np as int,
                Seq::<Seq<Rgba>>::empty())
                == Ok::<(Seq<Seq<Rgba>>, int), Error>((
                    ps@.map_values(|p: Palette| p@),
                    j as int,
                ))
                && (forall|k: int| 0 <= k < ps@.len() ==> (#[trigger] ps@[k])@.len() == 16)
                && pos <= j <= data@.len(),
            Err(e) => parse_palettes(data@, pos as int, np as int, Seq::<Seq<Rgba>>::empty())
                == Err::<(Seq<Seq<Rgba>>, int), Error>(e),
        },
{
    let mut acc: Vec<Palette> = Vec::new();
    let mut k: u32 = 0;
    let mut i = pos;
    proof {
        assert(acc@.map_values(|p: Palette| p@) =~= Seq::<Seq<Rgba>>::empty());
    }
    while k < np
        invariant
            k <= np,
            pos <= i <= data@.len(),
            forall|m: int| 0 <= m < acc@.len() ==> (#[trigger] acc@[m])@.len() == 16,
            parse_palettes(data@, pos as int, np as int, Seq::<Seq<Rgba>>::empty())
                == parse_palettes(data@, i as int, (np - k) as int,
                    acc@.map_values(|p: Palette| p@)),
        decreases np - k,
    {
        let (p, j) = match Palette::read(data, i) {
            Ok(p) => p,
            Err(e) => return Err(e),
        };
        proof {
            lemma_map_values_push(acc@, |p: Palette| p@, p);
        }
        acc.push(p);
        i = j;
        k = k + 1;
    }
    Ok((acc, i))
}

/// Reads one image block under the given feature flags.
fn read_image_block(
    data: &[u8],
    pos: usize,
    tags: bool,
    metas: bool,
    dims: bool,
    gw: u32,
    gh: u32,
) -> (r: Result<(Image, usize), Error>)
    requires
        pos <= data@.len(),
    ensures
        match r {
            Ok((img, j)) => parse_image_block(data@, pos as int, tags, metas, dims, gw as int,
                gh as int) == Ok::<(ImageView, int), Error>((img@, j as int))
                && img@.wf()
                && pos <= j <= data@.len(),
            Err(e) => parse_image_block(data@, pos as int, tags, metas, dims, gw as int,
                gh as int) == Err::<(ImageView, int), Error>(e),
        },
{
    let j0 = match read_exact_byte(data, pos, NL) {
        Ok(j) => j,
        Err(e) => return Err(e),
    };
    let (tag, j1) = if tags {
        let (t, j) = match read_quoted_string(data, j0) {
            Ok(p) => p,
            Err(e) => return Err(e),
        };
        let j2 = match read_exact_byte(data, j, NL) {
            Ok(j2) => j2,
            Err(e) => return Err(e),
        };
        (t, j2)
    } else {
        (Vec::new(), j0)
    };
    proof {
        if !tags {
            assert(tag@ =~= Seq::<char>::empty());
        }
    }
    let (meta, j2) = if metas {
        let (m, j) = match read_list_of_i16s(data, j1) {
            Ok(p) => p,
            Err(e) => return Err(e),
        };
        let j2 = match read_exact_byte(data, j, NL) {
            Ok(j2) => j2,
            Err(e) => return Err(e),
        };
        (m, j2)
    } else {
        (Vec::new(), j1)
    };
    proof {
        if !metas {
            assert(meta@ =~= Seq::<i16>::empty());
        }
    }
    let (w, h, j3) = if dims {
        let ja = match read_exact_byte(data, j2, LW) {
            Ok(j) => j,
            Err(e) => return Err(e),
        };
        let (w, jb) = match read_header_uint(data, ja, SP) {
            Ok(p) => p,
            Err(e) => return Err(e),
        };
        let jc = match read_exact_byte(data, jb, LH) {
            Ok(j) => j,
            Err(e) => return Err(e),
        };
        let (h, jd) = match read_header_uint(data, jc, NL) {
            Ok(p) => p,
            Err(e) => return Err(e),
        };
        (w, h, jd)
    } else {
        (gw, gh, j2)
    };
    let (mut img, j4) = match Image::read(data, j3, w, h) {
        Ok(p) => p,
        Err(e) => return Err(e),
    };
    if tags {
        img.set_tag_chars(tag);
    }
    if metas {
        img.set_metadata(meta);
    }
    proof {
        assert(img@ =~= (ImageView {
            tag: tag@,
            metadata: meta@,
            width: w as int,
            height: h as int,
            pixels: img@.pixels,
        }));
    }
    Ok((img, j4))
}

/// Reads `n` image blocks in a row.
fn read_image_blocks(
    data: &[u8],
    pos: usize,
    n: u32,
    tags: bool,
    metas: bool,
    dims: bool,
    gw: u32,
    gh: u32,
) -> (r: Result<(Vec<Image>, usize), Error>)
    requires
        pos <= data@.len(),
    ensures
        match r {
            Ok((imgs, j)) => parse_images(data@, pos as int, n as int, tags, metas, dims,
                gw as int, gh as int, Seq::<ImageView>::empty())
                == Ok::<(Seq<ImageView>, int), Error>((
                    imgs@.map_values(|img: Image| img@),
                    j as int,
                ))
                && (forall|k: int| 0 <= k < imgs@.len() ==> (#[trigger] imgs@[k])@.wf())
                && pos <= j <= data@.len(),
            Err(e) => parse_images(data@, pos as int, n as int, tags, metas, dims, gw as int,
                gh as int, Seq::<ImageView>::empty())
                == Err::<(Seq<ImageView>, int), Error>(e),
        },
{
    let mut acc: Vec<Image> = Vec::new();
    let mut k: u32 = 0;
    let mut i = pos;
    proof {
        assert(acc@.map_values(|img: Image| img@) =~= Seq::<ImageView>::empty());
    }
    while k < n
        invariant
            k <= n,
            pos <= i <= data@.len(),
            forall|m: int| 0 <= m < acc@.len() ==> (#[trigger] acc@[m])@.wf(),
            parse_images(data@, pos as int, n as int, tags, metas, dims, gw as int, gh as int,
                Seq::<ImageView>::empty())
                == parse_images(data@, i as int, (n - k) as int, tags, metas, dims, gw as int,
                    gh as int, acc@.map_values(|img: Image| img@)),
        decreases n - k,
    {
        let (img, j) = match read_image_block(data, i, tags, metas, dims, gw, gh) {
            Ok(p) => p,
            Err(e) => return Err(e),
        };
        proof {
            lemma_map_values_push(acc@, |img: Image| img@, img);
        }
        acc.push(img);
        i = j;
        k = k + 1;
    }
    Ok((acc, i))
}

// ===================================================================== //
//  Printing                                                             //
// ===================================================================== //

/// The printed palette lines from `k` on.
pub open spec fn enc_palettes_from(ps: Seq<Seq<Rgba>>, k: int) -> Seq<u8>
    decreases ps.len() - k,
{
    if k < 0 || k >= ps.len() {
        Seq::<u8>::empty()
    } else {
        enc_palette(ps[k]) + enc_palettes_from(ps, k + 1)
    }
}

/// The printed block of one image under the given feature flags: a blank
/// line, the optional tag, metadata and size lines, then the pixel grid.
pub open spec fn enc_image_block(img: ImageView, tags: bool, metas: bool, dims: bool) -> Seq<
    u8,
> {
    seq![NL]
        + (if tags {
            enc_quoted_string(img.tag) + seq![NL]
        } else {
            Seq::<u8>::empty()
        })
        + (if metas {
            enc_i16_list(img.metadata) + seq![NL]
        } else {
            Seq::<u8>::empty()
        })
        + (if dims {
            seq![LW] + dec_digits(img.width) + seq![SP, LH] + dec_digits(img.height) + seq![NL]
        } else {
            Seq::<u8>::empty()
        })
        + enc_grid(img.pixels, img.width, img.height)
}

/// The printed image blocks from `k` on.
pub open spec fn enc_images_from(
    imgs: Seq<ImageView>,
    k: int,
    tags: bool,
    metas: bool,
    dims: bool,
) -> Seq<u8>
    decreases imgs.len() - k,
{
    if k < 0 || k >= imgs.len() {
        Seq::<u8>::empty()
    } else {
        enc_image_block(imgs[k], tags, metas, dims)
            + enc_images_from(imgs, k + 1, tags, metas, dims)
    }
}

/// The printed form of a whole collection, in the lowest version that can
/// carry it and with exactly the flags for the features present.
pub open spec fn enc_collection(c: CollectionView) -> Seq<u8> {
    if use_v0(c) {
        let wh = uniform_size(c.images)->Some_0;
        seq![LA, LH, LI, D0, SP, LW] + dec_digits(wh.0) + seq![SP, LH] + dec_digits(wh.1)
            + seq![SP, LN] + dec_digits(c.images.len() as int) + seq![NL]
            + enc_images_from(c.images, 0, false, false, false)
    } else {
        let tags = any_tags(c.images);
        let metas = any_metadata(c.images);
        let dims = uniform_size(c.images) is None;
        seq![LA, LH, LI, D1, SP, LF] + enc_hex_upper(collection_flags(c)) + seq![SP, LP]
            + dec_digits(c.palettes.len() as int) + seq![SP, LI]
            + dec_digits(c.images.len() as int)
            + (match uniform_size(c.images) {
                Some(wh) => seq![SP, LW] + dec_digits(wh.0) + seq![SP, LH] + dec_digits(wh.1),
                None => Seq::<u8>::empty(),
            })
            + seq![NL]
            + (if c.palettes.len() > 0 {
                seq![NL] + enc_palettes_from(c.palettes, 0)
            } else {
                Seq::<u8>::empty()
            })
            + enc_images_from(c.images, 0, tags, metas, dims)
    }
}

/// Finds the size shared by every image, if any.
fn compute_uniform_size(images: &Vec<Image>) -> (r: Option<(u32, u32)>)
    ensures
        match (r, uniform_size(images@.map_values(|img: Image| img@))) {
            (Some(p), Some(q)) => p.0 as int == q.0 && p.1 as int == q.1,
            (None, None) => true,
            _ => false,
        },
{
    let ghost ims = images@.map_values(|img: Image| img@);
    if images.len() == 0 {
        return Some((0, 0));
    }
    let w0 = images[0].width();
    let h0 = images[0].height();
    let mut k: usize = 1;
    while k < images.len()
        invariant
            ims == images@.map_values(|img: Image| img@),
            images@.len() > 0,
            1 <= k <= images@.len(),
            w0 as int == ims[0].width,
            h0 as int == ims[0].height,
            forall|m: int| 0 <= m < k
                ==> (#[trigger] ims[m]).width == ims[0].width
                    && ims[m].height == ims[0].height,
        decreases images@.len() - k,
    {
        if images[k].width() != w0 || images[k].height() != h0 {
            proof {
                assert(ims[k as int].width != ims[0].width
                    || ims[k as int].height != ims[0].height);
                assert(uniform_size(ims) is None);
            }
            return None;
        }
        k = k + 1;
    }
    Some((w0, h0))
}

/// Whether any image carries a nonempty tag.
fn compute_any_tags(images: &Vec<Image>) -> (r: bool)
    ensures
        r == any_tags(images@.map_values(|img: Image| img@)),
{
    let ghost ims = images@.map_values(|img: Image| img@);
    let mut k: usize = 0;
    while k < images.len()
        invariant
            ims == images@.map_values(|img: Image| img@),
            0 <= k <= images@.len(),
            forall|m: int| 0 <= m < k ==> (#[trigger] ims[m]).tag.len() == 0,
        decreases images@.len() - k,
    {
        if images[k].tag_chars().len() > 0 {
            proof {
                assert(ims[k as int].tag.len() > 0);
            }
            return true;
        }
        k = k + 1;
    }
    false
}

/// Whether any image carries nonempty metadata.
fn compute_any_metadata(images: &Vec<Image>) -> (r: bool)
    ensures
        r == any_metadata(images@.map_values(|img: Image| img@)),
{
    let ghost ims = images@.map_values(|img: Image| img@);
    let mut k: usize = 0;
    while k < images.len()
        invariant
            ims == images@.map_values(|img: Image| img@),
            0 <= k <= images@.len(),
            forall|m: int| 0 <= m < k ==> (#[trigger] ims[m]).metadata.len() == 0,
        decreases images@.len() - k,
    {
        if images[k].metadata().len() > 0 {
            proof {
                assert(ims[k as int].metadata.len() > 0);
            }
            return true;
        }
        k = k + 1;
    }
    false
}

/// Appends the decimal digits of a count.
fn write_dec_len(out: &mut Vec<u8>, n: usize)
    ensures
        final(out)@ == old(out)@ + dec_digits(n as int),
{
    if n == 0 {
        out.push(D0);
        proof {
            assert(old(out)@.push(D0) =~= old(out)@ + dec_digits(0));
        }
        return;
    }
    let mut tmp: Vec<u8> = Vec::new();
    let mut m = n;
    while m > 0
        invariant
            dec_digits(n as int) == if m > 0 {
                dec_digits(m as int) + tmp@
            } else {
                tmp@
            },
        decreases m,
    {
        let d: u8 = (m % 10) as u8;
        proof {
            if m >= 10 {
                assert(dec_digits(m as int) + tmp@
                    =~= dec_digits(m as int / 10) + (seq![(D0 + m as int % 10) as u8] + tmp@));
            } else {
                assert(dec_digits(m as int) + tmp@ =~= seq![(D0 + m as int % 10) as u8] + tmp@);
            }
        }
        let ghost t0 = tmp@;
        tmp.insert(0, D0 + d);
        proof {
            assert(tmp@ =~= seq![(D0 + d) as u8] + t0);
        }
        m = m / 10;
    }
    let ghost pre = out@;
    out.append(&mut tmp);
    proof {
        assert(out@ =~= pre + dec_digits(n as int));
    }
}

/// Appends the palette lines from `k` on.
fn write_palette_lines(out: &mut Vec<u8>, ps: &Vec<Palette>, k: usize)
    requires
        k <= ps@.len(),
        forall|m: int| 0 <= m < ps@.len() ==> (#[trigger] ps@[m]).wf(),
    ensures
        final(out)@ == old(out)@
            + enc_palettes_from(ps@.map_values(|p: Palette| p@), k as int),
    decreases ps@.len() - k,
{
    let ghost pv = ps@.map_values(|p: Palette| p@);
    if k == ps.len() {
        proof {
            assert(out@ =~= old(out)@ + enc_palettes_from(pv, k as int));
        }
        return;
    }
    ps[k].write(out);
    write_palette_lines(out, ps, k + 1);
    proof {
        assert(pv[k as int] == ps@[k as int]@);
        assert(out@ =~= old(out)@ + enc_palettes_from(pv, k as int));
    }
}

/// Appends one image block under the given feature flags.
fn write_image_block(out: &mut Vec<u8>, img: &Image, tags: bool, metas: bool, dims: bool)
    requires
        img@.wf(),
    ensures
        final(out)@ == old(out)@ + enc_image_block(img@, tags, metas, dims),
{
    let ghost e_tag: Seq<u8> = if tags {
        enc_quoted_string(img@.tag) + seq![NL]
    } else {
        Seq::<u8>::empty()
    };
    let ghost e_meta: Seq<u8> = if metas {
        enc_i16_list(img@.metadata) + seq![NL]
    } else {
        Seq::<u8>::empty()
    };
    let ghost e_dims: Seq<u8> = if dims {
        seq![LW] + dec_digits(img@.width) + seq![SP, LH] + dec_digits(img@.height) + seq![NL]
    } else {
        Seq::<u8>::empty()
    };
    out.push(NL);
    proof {
        assert(out@ =~= old(out)@ + seq![NL]);
    }
    if tags {
        write_quoted_string(out, img.tag_chars());
        out.push(NL);
    }
    proof {
        assert(out@ =~= old(out)@ + seq![NL] + e_tag);
    }
    if metas {
        write_i16_list(out, img.metadata());
        out.push(NL);
    }
    proof {
        assert(out@ =~= old(out)@ + seq![NL] + e_tag + e_meta);
    }
    if dims {
        out.push(LW);
        write_dec_u32(out, img.width());
        out.push(SP);
        out.push(LH);
        write_dec_u32(out, img.height());
        out.push(NL);
    }
    proof {
        assert(out@ =~= old(out)@ + seq![NL] + e_tag + e_meta + e_dims);
    }
    img.write(out);
    proof {
        assert(enc_image_block(img@, tags, metas, dims)
            =~= seq![NL] + e_tag + e_meta + e_dims
                + enc_grid(img@.pixels, img@.width, img@.height));
        assert(out@ =~= old(out)@ + enc_image_block(img@, tags, metas, dims));
    }
}

/// Appends the image blocks from `k` on.
fn write_image_blocks(
    out: &mut Vec<u8>,
    imgs: &Vec<Image>,
    k: usize,
    tags: bool,
    metas: bool,
    dims: bool,
)
    requires
        k <= imgs@.len(),
        forall|m: int| 0 <= m < imgs@.len() ==> (#[trigger] imgs@[m])@.wf(),
    ensures
        final(out)@ == old(out)@
            + enc_images_from(imgs@.map_values(|img: Image| img@), k as int, tags, metas,
                dims),
    decreases imgs@.len() - k,
{
    let ghost iv = imgs@.map_values(|img: Image| img@);
    if k == imgs.len() {
        proof {
            assert(out@ =~= old(out)@ + enc_images_from(iv, k as int, tags, metas, dims));
        }
        return;
    }
    write_image_block(out, &imgs[k], tags, metas, dims);
    write_image_blocks(out, imgs, k + 1, tags, metas, dims);
    proof {
        assert(iv[k as int] == imgs@[k as int]@);
        assert(out@ =~= old(out)@ + enc_images_from(iv, k as int, tags, metas, dims));
    }
}

impl Collection {
    /// Whether every image holds its full pixel grid.
    pub open spec fn wf(&self) -> bool {
        self@.wf()
    }

    /// Writes this collection in its AHI text form, in the lowest version
    /// that can carry it.  Writing a byte vector cannot fail.
    #[verifier::rlimit(100)]
    pub fn write(&self, out: &mut Vec<u8>) -> (r: Result<(), Error>)
        requires
            self@.wf(),
        ensures
            r == Ok::<(), Error>(()),
            final(out)@ == old(out)@ + enc_collection(self@),
    {
        let gsize = compute_uniform_size(&self.images);
        let tags = compute_any_tags(&self.images);
        let metas = compute_any_metadata(&self.images);
        let ghost c = self@;
        proof {
            assert forall|m: int| 0 <= m < self.images@.len()
                implies (#[trigger] self.images@[m])@.wf() by {
                assert(c.images[m] == self.images@[m]@);
            }
            assert forall|m: int| 0 <= m < self.palettes@.len()
                implies (#[trigger] self.palettes@[m]).wf() by {
                assert(c.palettes[m] == self.palettes@[m]@);
            }
        }
        if self.palettes.len() == 0 && gsize.is_some() && !tags && !metas {
            proof {
                assert(c.palettes =~= Seq::<Seq<Rgba>>::empty());
                assert(use_v0(c));
            }
            let (w, h) = match gsize {
                Some(p) => p,
                None => {
                    proof {
                        assert(false);
                    }
                    (0, 0)
                },
            };
            write_collection_v0(out, &self.images, w, h);
            proof {
                lemma_enc_v0_shape(c);
                let wh = uniform_size(c.images)->Some_0;
                assert(w as int == wh.0 && h as int == wh.1);
            }
        } else {
            proof {
                if self.palettes@.len() > 0 {
                    assert(c.palettes.len() > 0);
                }
                assert(!use_v0(c));
            }
            let dims = gsize.is_none();
            let flags: u32 = (if dims {
                1
            } else {
                0
            }) + (if tags {
                2
            } else {
                0
            }) + (if metas {
                4
            } else {
                0
            });
            proof {
                assert(flags as int == collection_flags(c));
            }
            write_collection_v1(out, &self.palettes, &self.images, flags, gsize, tags, metas,
                dims);
            proof {
                lemma_enc_v1_shape(c);
                assert((match gsize {
                    Some(wh) => seq![SP, LW] + dec_digits(wh.0 as int) + seq![SP, LH]
                        + dec_digits(wh.1 as int),
                    None => Seq::<u8>::empty(),
                }) == (match uniform_size(c.images) {
                    Some(wh) => seq![SP, LW] + dec_digits(wh.0) + seq![SP, LH]
                        + dec_digits(wh.1),
                    None => Seq::<u8>::empty(),
                }));
            }
        }
        Ok(())
    }
}

/// Appends the version-0 form: the compact header, then the image blocks.
#[verifier::rlimit(100)]
#[verifier::spinoff_prover]
fn write_collection_v0(out: &mut Vec<u8>, images: &Vec<Image>, w: u32, h: u32)
    requires
        forall|m: int| 0 <= m < images@.len() ==> (#[trigger] images@[m])@.wf(),
    ensures
        final(out)@ == old(out)@ + (seq![LA, LH, LI, D0, SP, LW] + dec_digits(w as int)
            + seq![SP, LH] + dec_digits(h as int) + seq![SP, LN]
            + dec_digits(images@.len() as int) + seq![NL]
            + enc_images_from(images@.map_values(|img: Image| img@), 0, false, false,
                false)),
{
    out.push(LA);
    out.push(LH);
    out.push(LI);
    out.push(D0);
    out.push(SP);
    out.push(LW);
    proof {
        assert(out@ =~= old(out)@ + seq![LA, LH, LI, D0, SP, LW]);
    }
    write_dec_u32(out, w);
    out.push(SP);
    out.push(LH);
    proof {
        assert(out@ =~= old(out)@ + seq![LA, LH, LI, D0, SP, LW] + dec_digits(w as int)
            + seq![SP, LH]);
    }
    write_dec_u32(out, h);
    out.push(SP);
    out.push(LN);
    proof {
        assert(out@ =~= old(out)@ + seq![LA, LH, LI, D0, SP, LW] + dec_digits(w as int)
            + seq![SP, LH] + dec_digits(h as int) + seq![SP, LN]);
    }
    write_dec_len(out, images.len());
    out.push(NL);
    proof {
        assert(out@ =~= old(out)@ + seq![LA, LH, LI, D0, SP, LW] + dec_digits(w as int)
            + seq![SP, LH] + dec_digits(h as int) + seq![SP, LN]
            + dec_digits(images@.len() as int) + seq![NL]);
    }
    write_image_blocks(out, images, 0, false, false, false);
    proof {
        assert(out@ =~= old(out)@ + (seq![LA, LH, LI, D0, SP, LW] + dec_digits(w as int)
            + seq![SP, LH] + dec_digits(h as int) + seq![SP, LN]
            + dec_digits(images@.len() as int) + seq![NL]
            + enc_images_from(images@.map_values(|img: Image| img@), 0, false, false,
                false)));
    }
}

/// Appends the version-1 form: the flag header, the optional global size,
/// the palette block, then the image blocks.
#[verifier::rlimit(100)]
#[verifier::spinoff_prover]
fn write_collection_v1(
    out: &mut Vec<u8>,
    palettes: &Vec<Palette>,
    images: &Vec<Image>,
    flags: u32,
    gsize: Option<(u32, u32)>,
    tags: bool,
    metas: bool,
    dims: bool,
)
    requires
        forall|m: int| 0 <= m < images@.len() ==> (#[trigger] images@[m])@.wf(),
        forall|m: int| 0 <= m < palettes@.len() ==> (#[trigger] palettes@[m]).wf(),
    ensures
        final(out)@ == old(out)@ + (seq![LA, LH, LI, D1, SP, LF]
            + enc_hex_upper(flags as int)
            + seq![SP, LP] + dec_digits(palettes@.len() as int) + seq![SP, LI]
            + dec_digits(images@.len() as int)
            + (match gsize {
                Some(wh) => seq![SP, LW] + dec_digits(wh.0 as int) + seq![SP, LH]
                    + dec_digits(wh.1 as int),
                None => Seq::<u8>::empty(),
            })
            + seq![NL]
            + (if palettes@.len() > 0 {
                seq![NL] + enc_palettes_from(palettes@.map_values(|p: Palette| p@), 0)
            } else {
                Seq::<u8>::empty()
            })
            + enc_images_from(images@.map_values(|img: Image| img@), 0, tags, metas,
                dims)),
{
    let ghost s1 = seq![LA, LH, LI, D1, SP, LF];
    let ghost s2 = s1 + enc_hex_upper(flags as int);
    let ghost s3 = s2 + seq![SP, LP];
    let ghost s4 = s3 + dec_digits(palettes@.len() as int);
    let ghost s5 = s4 + seq![SP, LI];
    let ghost s6 = s5 + dec_digits(images@.len() as int);
    let ghost e_gs: Seq<u8> = match gsize {
        Some(wh) => seq![SP, LW] + dec_digits(wh.0 as int) + seq![SP, LH]
            + dec_digits(wh.1 as int),
        None => Seq::<u8>::empty(),
    };
    let ghost s7 = s6 + e_gs;
    let ghost s8 = s7 + seq![NL];
    let ghost e_pal: Seq<u8> = if palettes@.len() > 0 {
        seq![NL] + enc_palettes_from(palettes@.map_values(|p: Palette| p@), 0)
    } else {
        Seq::<u8>::empty()
    };
    let ghost s9 = s8 + e_pal;
    out.push(LA);
    out.push(LH);
    out.push(LI);
    out.push(D1);
    out.push(SP);
    out.push(LF);
    proof {
        assert(out@ =~= old(out)@ + s1);
    }
    write_hex_u32(out, flags);
    proof {
        assert(out@ =~= old(out)@ + s2);
    }
    out.push(SP);
    out.push(LP);
    proof {
        assert(out@ =~= old(out)@ + s3);
    }
    write_dec_len(out, palettes.len());
    proof {
        assert(out@ =~= old(out)@ + s4);
    }
    out.push(SP);
    out.push(LI);
    proof {
        assert(out@ =~= old(out)@ + s5);
    }
    write_dec_len(out, images.len());
    proof {
        assert(out@ =~= old(out)@ + s6);
    }
    match gsize {
        Some((w, h)) => {
            let ghost g1 = seq![SP, LW];
            let ghost g2 = g1 + dec_digits(w as int);
            let ghost g3 = g2 + seq![SP, LH];
            out.push(SP);
            out.push(LW);
            write_dec_u32(out, w);
            out.push(SP);
            out.push(LH);
            proof {
                assert(out@ =~= old(out)@ + s6 + g3);
            }
            write_dec_u32(out, h);
            proof {
                assert(e_gs == g3 + dec_digits(h as int));
                assert(out@ =~= old(out)@ + s7);
            }
        },
        None => {
            proof {
                assert(out@ =~= old(out)@ + s7);
            }
        },
    }
    out.push(NL);
    proof {
        assert(out@ =~= old(out)@ + s8);
    }
    if palettes.len() > 0 {
        out.push(NL);
        write_palette_lines(out, palettes, 0);
        proof {
            assert(out@ =~= old(out)@ + s9);
        }
    } else {
        proof {
            assert(out@ =~= old(out)@ + s9);
        }
    }
    write_image_blocks(out, images, 0, tags, metas, dims);
    proof {
        assert(final(out)@ =~= old(out)@ + (s9
            + enc_images_from(images@.map_values(|img: Image| img@), 0, tags, metas,
                dims)));
    }
}

// ===================================================================== //
//  Round-trip laws                                                      //
// ===================================================================== //

/// The machine bounds under which a collection survives the text form:
/// counts and dimensions fit the header cap, and transparent palette
/// entries are the all-zero quadruple.
pub open spec fn encodable(c: CollectionView) -> bool {
    &&& c.wf()
    &&& c.images.len() <= 0xFFFF
    &&& c.palettes.len() <= 0xFFFF
    &&& forall|k: int| 0 <= k < c.images.len()
        ==> (#[trigger] c.images[k]).width <= 0xFFFF && c.images[k].height <= 0xFFFF
    &&& forall|k: int, m: int| 0 <= k < c.palettes.len() && 0 <= m < 16
        ==> entry_canonical(#[trigger] c.palettes[k][m])
}

/// Parsing the printed block of one image gives the image back.
#[verifier::rlimit(100)]
#[verifier::spinoff_prover]
proof fn lemma_parse_image_block_of_enc(
    s: Seq<u8>,
    i: int,
    img: ImageView,
    tags: bool,
    metas: bool,
    dims: bool,
    gw: int,
    gh: int,
)
    requires
        img.wf(),
        img.width <= 0xFFFF,
        img.height <= 0xFFFF,
        !tags ==> img.tag.len() == 0,
        !metas ==> img.metadata.len() == 0,
        !dims ==> img.width == gw && img.height == gh,
        0 <= i,
        i + enc_image_block(img, tags, metas, dims).len() <= s.len(),
        s.subrange(i, i + enc_image_block(img, tags, metas, dims).len())
            == enc_image_block(img, tags, metas, dims),
    ensures
        parse_image_block(s, i, tags, metas, dims, gw, gh)
            == Ok::<(ImageView, int), Error>((
                img,
                i + enc_image_block(img, tags, metas, dims).len(),
            )),
{
    let e_tag: Seq<u8> = if tags {
        enc_quoted_string(img.tag) + seq![NL]
    } else {
        Seq::<u8>::empty()
    };
    let e_meta: Seq<u8> = if metas {
        enc_i16_list(img.metadata) + seq![NL]
    } else {
        Seq::<u8>::empty()
    };
    let e_dims: Seq<u8> = if dims {
        seq![LW] + dec_digits(img.width) + seq![SP, LH] + dec_digits(img.height) + seq![NL]
    } else {
        Seq::<u8>::empty()
    };
    let e_grid = enc_grid(img.pixels, img.width, img.height);
    let e = enc_image_block(img, tags, metas, dims);
    let b1 = seq![NL];
    let b2 = b1 + e_tag;
    let b3 = b2 + e_meta;
    let b4 = b3 + e_dims;
    assert(e == b4 + e_grid);
    lemma_subrange_split(s, i, b4, e_grid);
    lemma_subrange_split(s, i, b3, e_dims);
    lemma_subrange_split(s, i, b2, e_meta);
    lemma_subrange_split(s, i, b1, e_tag);
    lemma_subrange_index(s, i, b1, 0);
    assert(s[i] == NL);
    let p1: int = i + 1;
    if tags {
        let ql = enc_quoted_string(img.tag).len() as int;
        lemma_subrange_split(s, p1, enc_quoted_string(img.tag), seq![NL]);
        lemma_parse_quoted_string_of_enc(s, p1, img.tag);
        lemma_subrange_index(s, p1 + ql, seq![NL], 0);
        assert(s[p1 + ql] == NL);
    }
    let p2: int = p1 + e_tag.len() as int;
    if metas {
        let ml = enc_i16_list(img.metadata).len() as int;
        lemma_subrange_split(s, p2, enc_i16_list(img.metadata), seq![NL]);
        lemma_parse_i16_list_of_enc(s, p2, img.metadata);
        lemma_subrange_index(s, p2 + ml, seq![NL], 0);
        assert(s[p2 + ml] == NL);
    }
    let p3: int = p2 + e_meta.len() as int;
    if dims {
        let dw = dec_digits(img.width);
        let dh = dec_digits(img.height);
        let u1 = seq![LW];
        let u2 = u1 + dw;
        let u3 = u2 + seq![SP, LH];
        let u4 = u3 + dh;
        assert(e_dims == u4 + seq![NL]);
        lemma_subrange_split(s, p3, u4, seq![NL]);
        lemma_subrange_index(s, p3 + u4.len() as int, seq![NL], 0);
        lemma_subrange_split(s, p3, u3, dh);
        lemma_subrange_split(s, p3, u2, seq![SP, LH]);
        lemma_subrange_index(s, p3 + u2.len() as int, seq![SP, LH], 0);
        lemma_subrange_index(s, p3 + u2.len() as int, seq![SP, LH], 1);
        lemma_subrange_split(s, p3, u1, dw);
        lemma_subrange_index(s, p3, u1, 0);
        assert(s[p3] == LW);
        crate::token::lemma_parse_uint_of_enc(s, p3 + 1, img.width, SP);
        crate::token::lemma_parse_uint_of_enc(s, p3 + u2.len() as int + 2, img.height, NL);
    }
    let p4: int = p3 + e_dims.len() as int;
    assert(s.subrange(p4, p4 + e_grid.len()) == e_grid);
    crate::image::lemma_parse_grid_of_enc(s, p4, img.pixels, img.width, img.height);
    match parse_image_block(s, i, tags, metas, dims, gw, gh) {
        Ok((got, j)) => {
            assert(got =~= img);
            assert(j == i + e.len());
        },
        Err(_) => {
            assert(false);
        },
    }
}

/// Parsing the printed blocks of the images from `k` on appends the images
/// to the accumulator.
proof fn lemma_parse_images_of_enc(
    s: Seq<u8>,
    i: int,
    imgs: Seq<ImageView>,
    k: int,
    tags: bool,
    metas: bool,
    dims: bool,
    gw: int,
    gh: int,
    acc: Seq<ImageView>,
)
    requires
        0 <= k <= imgs.len(),
        forall|m: int| 0 <= m < imgs.len()
            ==> (#[trigger] imgs[m]).wf() && imgs[m].width <= 0xFFFF
                && imgs[m].height <= 0xFFFF,
        !tags ==> forall|m: int| 0 <= m < imgs.len() ==> (#[trigger] imgs[m]).tag.len() == 0,
        !metas ==> forall|m: int| 0 <= m < imgs.len()
            ==> (#[trigger] imgs[m]).metadata.len() == 0,
        !dims ==> forall|m: int| 0 <= m < imgs.len()
            ==> (#[trigger] imgs[m]).width == gw && imgs[m].height == gh,
        0 <= i,
        i + enc_images_from(imgs, k, tags, metas, dims).len() <= s.len(),
        s.subrange(i, i + enc_images_from(imgs, k, tags, metas, dims).len())
            == enc_images_from(imgs, k, tags, metas, dims),
    ensures
        parse_images(s, i, imgs.len() - k, tags, metas, dims, gw, gh, acc)
            == Ok::<(Seq<ImageView>, int), Error>((
                acc + imgs.skip(k),
                i + enc_images_from(imgs, k, tags, metas, dims).len(),
            )),
    decreases imgs.len() - k,
{
    if k == imgs.len() {
        assert(acc + imgs.skip(k) =~= acc);
    } else {
        let e0 = enc_image_block(imgs[k], tags, metas, dims);
        let rest = enc_images_from(imgs, k + 1, tags, metas, dims);
        assert(enc_images_from(imgs, k, tags, metas, dims) == e0 + rest);
        lemma_subrange_split(s, i, e0, rest);
        lemma_parse_image_block_of_enc(s, i, imgs[k], tags, metas, dims, gw, gh);
        lemma_parse_images_of_enc(s, i + e0.len(), imgs, k + 1, tags, metas, dims, gw, gh,
            acc.push(imgs[k]));
        assert(acc.push(imgs[k]) + imgs.skip(k + 1) =~= acc + imgs.skip(k));
    }
}

/// Parsing the printed palette lines from `k` on appends the palettes to
/// the accumulator.
proof fn lemma_parse_palettes_of_enc(
    s: Seq<u8>,
    i: int,
    ps: Seq<Seq<Rgba>>,
    k: int,
    acc: Seq<Seq<Rgba>>,
)
    requires
        0 <= k <= ps.len(),
        forall|m: int| 0 <= m < ps.len() ==> (#[trigger] ps[m]).len() == 16,
        forall|m: int, e: int| 0 <= m < ps.len() && 0 <= e < 16
            ==> entry_canonical(#[trigger] ps[m][e]),
        0 <= i,
        i + enc_palettes_from(ps, k).len() <= s.len(),
        s.subrange(i, i + enc_palettes_from(ps, k).len()) == enc_palettes_from(ps, k),
    ensures
        parse_palettes(s, i, ps.len() - k, acc)
            == Ok::<(Seq<Seq<Rgba>>, int), Error>((
                acc + ps.skip(k),
                i + enc_palettes_from(ps, k).len(),
            )),
    decreases ps.len() - k,
{
    if k == ps.len() {
        assert(acc + ps.skip(k) =~= acc);
    } else {
        let e0 = enc_palette(ps[k]);
        let rest = enc_palettes_from(ps, k + 1);
        assert(enc_palettes_from(ps, k) == e0 + rest);
        lemma_subrange_split(s, i, e0, rest);
        assert(forall|e: int| 0 <= e < 16 ==> entry_canonical(#[trigger] ps[k][e]));
        crate::palette::lemma_parse_palette_of_enc(s, i, ps[k]);
        lemma_parse_palettes_of_enc(s, i + e0.len(), ps, k + 1, acc.push(ps[k]));
        assert(acc.push(ps[k]) + ps.skip(k + 1) =~= acc + ps.skip(k));
    }
}

/// Stepping through the version-0 header: each field parses to the value it
/// was printed from, and the image blocks start where the header ends.
#[verifier::rlimit(100)]
#[verifier::spinoff_prover]
proof fn lemma_v0_header(s: Seq<u8>, w: int, h: int, n: int, tail: Seq<u8>)
    requires
        0 <= w <= 0xFFFF,
        0 <= h <= 0xFFFF,
        0 <= n <= 0xFFFF,
        s == seq![LA, LH, LI, D0, SP, LW] + dec_digits(w) + seq![SP, LH] + dec_digits(h)
            + seq![SP, LN] + dec_digits(n) + seq![NL] + tail,
    ensures
        ({
            let dw = dec_digits(w).len() as int;
            let dh = dec_digits(h).len() as int;
            let dn = dec_digits(n).len() as int;
            &&& parse_byte(s, 0, LA) == Ok::<int, Error>(1)
            &&& parse_byte(s, 1, LH) == Ok::<int, Error>(2)
            &&& parse_byte(s, 2, LI) == Ok::<int, Error>(3)
            &&& parse_header_uint(s, 3, SP) == Ok::<(int, int), Error>((0, 5))
            &&& parse_byte(s, 5, LW) == Ok::<int, Error>(6)
            &&& parse_header_uint(s, 6, SP) == Ok::<(int, int), Error>((w, 7 + dw))
            &&& parse_byte(s, 7 + dw, LH) == Ok::<int, Error>(8 + dw)
            &&& parse_header_uint(s, 8 + dw, SP) == Ok::<(int, int), Error>((h, 9 + dw + dh))
            &&& parse_byte(s, 9 + dw + dh, LN) == Ok::<int, Error>(10 + dw + dh)
            &&& parse_header_uint(s, 10 + dw + dh, NL)
                == Ok::<(int, int), Error>((n, 11 + dw + dh + dn))
            &&& s.len() == 11 + dw + dh + dn + tail.len()
            &&& s.subrange(11 + dw + dh + dn, s.len() as int) == tail
            &&& s.subrange(0, 4) == seq![LA, LH, LI, D0]
        }),
{
    let dw = dec_digits(w);
    let dh = dec_digits(h);
    let dn = dec_digits(n);
    let a1 = seq![LA, LH, LI, D0, SP, LW];
    let a2 = a1 + dw;
    let a3 = a2 + seq![SP, LH];
    let a4 = a3 + dh;
    let a5 = a4 + seq![SP, LN];
    let a6 = a5 + dn;
    let a7 = a6 + seq![NL];
    assert(s.subrange(0, s.len() as int) =~= s);
    lemma_subrange_split(s, 0, a7, tail);
    lemma_subrange_split(s, 0, a6, seq![NL]);
    lemma_subrange_index(s, a6.len() as int, seq![NL], 0);
    lemma_subrange_split(s, 0, a5, dn);
    lemma_subrange_split(s, 0, a4, seq![SP, LN]);
    lemma_subrange_index(s, a4.len() as int, seq![SP, LN], 0);
    lemma_subrange_index(s, a4.len() as int, seq![SP, LN], 1);
    lemma_subrange_split(s, 0, a3, dh);
    lemma_subrange_split(s, 0, a2, seq![SP, LH]);
    lemma_subrange_index(s, a2.len() as int, seq![SP, LH], 0);
    lemma_subrange_index(s, a2.len() as int, seq![SP, LH], 1);
    lemma_subrange_split(s, 0, a1, dw);
    lemma_subrange_index(s, 0, a1, 0);
    lemma_subrange_index(s, 0, a1, 1);
    lemma_subrange_index(s, 0, a1, 2);
    lemma_subrange_index(s, 0, a1, 3);
    lemma_subrange_index(s, 0, a1, 4);
    lemma_subrange_index(s, 0, a1, 5);
    assert(s.subrange(3, 4) =~= dec_digits(0)) by {
        assert(s[3] == D0);
    }
    assert(s[4] == SP);
    crate::token::lemma_parse_uint_of_enc(s, 3, 0, SP);
    crate::token::lemma_parse_uint_of_enc(s, 6, w, SP);
    crate::token::lemma_parse_uint_of_enc(s, a2.len() as int + 2, h, SP);
    crate::token::lemma_parse_uint_of_enc(s, a4.len() as int + 2, n, NL);
    assert(s.subrange(0, 4) =~= seq![LA, LH, LI, D0]);
}

/// Stepping through the version-1 header: each field parses to the value it
/// was printed from, and the body starts where the header ends.
#[verifier::rlimit(100)]
#[verifier::spinoff_prover]
proof fn lemma_v1_header(
    s: Seq<u8>,
    flags: int,
    np: int,
    n: int,
    gs: Option<(int, int)>,
    tail: Seq<u8>,
)
    requires
        0 <= flags < 0x100000000,
        0 <= np <= 0xFFFF,
        0 <= n <= 0xFFFF,
        gs matches Some(wh) ==> 0 <= wh.0 <= 0xFFFF && 0 <= wh.1 <= 0xFFFF,
        s == seq![LA, LH, LI, D1, SP, LF] + enc_hex_upper(flags) + seq![SP, LP]
            + dec_digits(np) + seq![SP, LI] + dec_digits(n)
            + (match gs {
                Some(wh) => seq![SP, LW] + dec_digits(wh.0) + seq![SP, LH]
                    + dec_digits(wh.1),
                None => Seq::<u8>::empty(),
            })
            + seq![NL] + tail,
    ensures
        ({
            let hf = enc_hex_upper(flags).len() as int;
            let dp = dec_digits(np).len() as int;
            let dn = dec_digits(n).len() as int;
            let e_gs: Seq<u8> = match gs {
                Some(wh) => seq![SP, LW] + dec_digits(wh.0) + seq![SP, LH]
                    + dec_digits(wh.1),
                None => Seq::<u8>::empty(),
            };
            let qb = 11 + hf + dp + dn + e_gs.len() as int;
            &&& parse_byte(s, 0, LA) == Ok::<int, Error>(1)
            &&& parse_byte(s, 1, LH) == Ok::<int, Error>(2)
            &&& parse_byte(s, 2, LI) == Ok::<int, Error>(3)
            &&& parse_header_uint(s, 3, SP) == Ok::<(int, int), Error>((1, 5))
            &&& parse_byte(s, 5, LF) == Ok::<int, Error>(6)
            &&& parse_hex_u32(s, 6, SP) == Ok::<(int, int), Error>((flags, 7 + hf))
            &&& parse_byte(s, 7 + hf, LP) == Ok::<int, Error>(8 + hf)
            &&& parse_header_uint(s, 8 + hf, SP)
                == Ok::<(int, int), Error>((np, 9 + hf + dp))
            &&& parse_byte(s, 9 + hf + dp, LI) == Ok::<int, Error>(10 + hf + dp)
            &&& (match gs {
                Some(wh) => {
                    let dgw = dec_digits(wh.0).len() as int;
                    let dgh = dec_digits(wh.1).len() as int;
                    &&& parse_header_uint(s, 10 + hf + dp, SP)
                        == Ok::<(int, int), Error>((n, 11 + hf + dp + dn))
                    &&& parse_byte(s, 11 + hf + dp + dn, LW)
                        == Ok::<int, Error>(12 + hf + dp + dn)
                    &&& parse_header_uint(s, 12 + hf + dp + dn, SP)
                        == Ok::<(int, int), Error>((wh.0, 13 + hf + dp + dn + dgw))
                    &&& parse_byte(s, 13 + hf + dp + dn + dgw, LH)
                        == Ok::<int, Error>(14 + hf + dp + dn + dgw)
                    &&& parse_header_uint(s, 14 + hf + dp + dn + dgw, NL)
                        == Ok::<(int, int), Error>((wh.1, 15 + hf + dp + dn + dgw + dgh))
                    &&& qb == 15 + hf + dp + dn + dgw + dgh
                },
                None => parse_header_uint(s, 10 + hf + dp, NL)
                    == Ok::<(int, int), Error>((n, 11 + hf + dp + dn)) && qb == 11 + hf + dp
                    + dn,
            })
            &&& s.len() == qb + tail.len()
            &&& s.subrange(qb, s.len() as int) == tail
            &&& s.subrange(0, 4) == seq![LA, LH, LI, D1]
        }),
{
    let hf = enc_hex_upper(flags);
    let dp = dec_digits(np);
    let dn = dec_digits(n);
    let e_gs: Seq<u8> = match gs {
        Some(wh) => seq![SP, LW] + dec_digits(wh.0) + seq![SP, LH] + dec_digits(wh.1),
        None => Seq::<u8>::empty(),
    };
    let a1 = seq![LA, LH, LI, D1, SP, LF];
    let a2 = a1 + hf;
    let a3 = a2 + seq![SP, LP];
    let a4 = a3 + dp;
    let a5 = a4 + seq![SP, LI];
    let a6 = a5 + dn;
    let a7 = a6 + e_gs;
    let a8 = a7 + seq![NL];
    assert(s.subrange(0, s.len() as int) =~= s);
    lemma_subrange_split(s, 0, a8, tail);
    lemma_subrange_split(s, 0, a7, seq![NL]);
    lemma_subrange_index(s, a7.len() as int, seq![NL], 0);
    lemma_subrange_split(s, 0, a6, e_gs);
    lemma_subrange_split(s, 0, a5, dn);
    lemma_subrange_split(s, 0, a4, seq![SP, LI]);
    lemma_subrange_index(s, a4.len() as int, seq![SP, LI], 0);
    lemma_subrange_index(s, a4.len() as int, seq![SP, LI], 1);
    lemma_subrange_split(s, 0, a3, dp);
    lemma_subrange_split(s, 0, a2, seq![SP, LP]);
    lemma_subrange_index(s, a2.len() as int, seq![SP, LP], 0);
    lemma_subrange_index(s, a2.len() as int, seq![SP, LP], 1);
    lemma_subrange_split(s, 0, a1, hf);
    lemma_subrange_index(s, 0, a1, 0);
    lemma_subrange_index(s, 0, a1, 1);
    lemma_subrange_index(s, 0, a1, 2);
    lemma_subrange_index(s, 0, a1, 3);
    lemma_subrange_index(s, 0, a1, 4);
    lemma_subrange_index(s, 0, a1, 5);
    assert(s.subrange(3, 4) =~= dec_digits(1)) by {
        assert(s[3] == D1);
    }
    assert(s[4] == SP);
    crate::token::lemma_parse_uint_of_enc(s, 3, 1, SP);
    assert(!crate::token::is_hex_byte(SP));
    crate::token::lemma_parse_hex_of_enc_upper(s, 6, flags, SP);
    crate::token::lemma_parse_uint_of_enc(s, a2.len() as int + 2, np, SP);
    match gs {
        Some(wh) => {
            let dgw = dec_digits(wh.0);
            let dgh = dec_digits(wh.1);
            let g1 = seq![SP, LW];
            let g2 = g1 + dgw;
            let g3 = g2 + seq![SP, LH];
            let p: int = a5.len() as int;
            // peel the global-size field inside its region
            assert(s.subrange(a6.len() as int, a7.len() as int) == e_gs);
            lemma_subrange_split(s, a6.len() as int, g3, dgh);
            lemma_subrange_split(s, a6.len() as int, g2, seq![SP, LH]);
            lemma_subrange_index(s, a6.len() as int + g2.len() as int, seq![SP, LH], 0);
            lemma_subrange_index(s, a6.len() as int + g2.len() as int, seq![SP, LH], 1);
            lemma_subrange_split(s, a6.len() as int, g1, dgw);
            lemma_subrange_index(s, a6.len() as int, g1, 0);
            lemma_subrange_index(s, a6.len() as int, g1, 1);
            crate::token::lemma_parse_uint_of_enc(s, a4.len() as int + 2, n, SP);
            crate::token::lemma_parse_uint_of_enc(s, a6.len() as int + 2, wh.0, SP);
            crate::token::lemma_parse_uint_of_enc(s, a6.len() as int + g2.len() as int + 2,
                wh.1, NL);
        },
        None => {
            assert(e_gs.len() == 0);
            assert(s[a6.len() as int] == NL);
            crate::token::lemma_parse_uint_of_enc(s, a4.len() as int + 2, n, NL);
        },
    }
    assert(s.subrange(0, 4) =~= seq![LA, LH, LI, D1]);
}

/// Decoding an encoded collection gives the collection back, for every
/// collection within the format's bounds.
#[verifier::rlimit(50)]
pub proof fn lemma_collection_round_trip(c: CollectionView)
    requires
        encodable(c),
    ensures
        decode_collection(enc_collection(c)) == Ok::<CollectionView, Error>(c),
{
    if use_v0(c) {
        lemma_collection_round_trip_v0(c);
    } else {
        lemma_collection_round_trip_v1(c);
    }
}

/// The version-0 half of the round trip.
#[verifier::rlimit(100)]
#[verifier::spinoff_prover]
proof fn lemma_collection_round_trip_v0(c: CollectionView)
    requires
        encodable(c),
        use_v0(c),
    ensures
        decode_collection(enc_collection(c)) == Ok::<CollectionView, Error>(c),
        enc_collection(c).subrange(0, 4) == seq![LA, LH, LI, D0],
{
    let s = enc_collection(c);
    let n = c.images.len() as int;
    let wh = uniform_size(c.images)->Some_0;
    let e_imgs = enc_images_from(c.images, 0, false, false, false);
    assert(0 <= wh.0 <= 0xFFFF && 0 <= wh.1 <= 0xFFFF) by {
        if c.images.len() > 0 {
            assert(c.images[0].width <= 0xFFFF && c.images[0].height <= 0xFFFF);
        }
    }
    assert(s == seq![LA, LH, LI, D0, SP, LW] + dec_digits(wh.0) + seq![SP, LH]
        + dec_digits(wh.1) + seq![SP, LN] + dec_digits(n) + seq![NL] + e_imgs);
    lemma_v0_header(s, wh.0, wh.1, n, e_imgs);
    let dw = dec_digits(wh.0).len() as int;
    let dh = dec_digits(wh.1).len() as int;
    let dn = dec_digits(n).len() as int;
    let qb = 11 + dw + dh + dn;
    lemma_parse_images_of_enc(s, qb, c.images, 0, false, false, false, wh.0, wh.1,
        Seq::<ImageView>::empty());
    assert(Seq::<ImageView>::empty() + c.images.skip(0) =~= c.images);
    match parse_collection(s) {
        Ok((got, _)) => {
            assert(got =~= c);
        },
        Err(_) => {
            assert(false);
        },
    }
}

/// The palette block and image blocks of the version-1 body.
#[verifier::rlimit(100)]
#[verifier::spinoff_prover]
proof fn lemma_v1_tail(
    s: Seq<u8>,
    qb: int,
    c: CollectionView,
    tags: bool,
    metas: bool,
    dims: bool,
    gw: int,
    gh: int,
)
    requires
        encodable(c),
        !tags ==> forall|m: int| 0 <= m < c.images.len()
            ==> (#[trigger] c.images[m]).tag.len() == 0,
        !metas ==> forall|m: int| 0 <= m < c.images.len()
            ==> (#[trigger] c.images[m]).metadata.len() == 0,
        !dims ==> forall|m: int| 0 <= m < c.images.len()
            ==> (#[trigger] c.images[m]).width == gw && c.images[m].height == gh,
        0 <= qb <= s.len(),
        s.subrange(qb, s.len() as int) == (if c.palettes.len() > 0 {
            seq![NL] + enc_palettes_from(c.palettes, 0)
        } else {
            Seq::<u8>::empty()
        }) + enc_images_from(c.images, 0, tags, metas, dims),
    ensures
        ({
            let e_pal: Seq<u8> = if c.palettes.len() > 0 {
                seq![NL] + enc_palettes_from(c.palettes, 0)
            } else {
                Seq::<u8>::empty()
            };
            let qi = qb + e_pal.len() as int;
            &&& c.palettes.len() > 0 ==> parse_byte(s, qb, NL) == Ok::<int, Error>(qb + 1)
                && parse_palettes(s, qb + 1, c.palettes.len() as int,
                    Seq::<Seq<Rgba>>::empty())
                == Ok::<(Seq<Seq<Rgba>>, int), Error>((c.palettes, qi))
            &&& parse_images(s, qi, c.images.len() as int, tags, metas, dims, gw, gh,
                Seq::<ImageView>::empty())
                == Ok::<(Seq<ImageView>, int), Error>((
                    c.images,
                    qi + enc_images_from(c.images, 0, tags, metas, dims).len(),
                ))
        }),
{
    let np = c.palettes.len() as int;
    let e_pal: Seq<u8> = if np > 0 {
        seq![NL] + enc_palettes_from(c.palettes, 0)
    } else {
        Seq::<u8>::empty()
    };
    let e_imgs = enc_images_from(c.images, 0, tags, metas, dims);
    assert(s.len() - qb == (e_pal + e_imgs).len());
    lemma_subrange_split(s, qb, e_pal, e_imgs);
    let qi: int = qb + e_pal.len() as int;
    if np > 0 {
        assert(e_pal == seq![NL] + enc_palettes_from(c.palettes, 0));
        lemma_subrange_split(s, qb, seq![NL], enc_palettes_from(c.palettes, 0));
        lemma_subrange_index(s, qb, seq![NL], 0);
        lemma_parse_palettes_of_enc(s, qb + 1, c.palettes, 0, Seq::<Seq<Rgba>>::empty());
        assert(Seq::<Seq<Rgba>>::empty() + c.palettes.skip(0) =~= c.palettes);
    }
    lemma_parse_images_of_enc(s, qi, c.images, 0, tags, metas, dims, gw, gh,
        Seq::<ImageView>::empty());
    assert(Seq::<ImageView>::empty() + c.images.skip(0) =~= c.images);
}

/// Assembling the tail of a body from the parse results of its parts.
#[verifier::rlimit(100)]
#[verifier::spinoff_prover]
proof fn lemma_body_rest_eval(
    s: Seq<u8>,
    c: CollectionView,
    flags: int,
    i: int,
    qi: int,
    jend: int,
    gw: int,
    gh: int,
)
    requires
        c.palettes.len() > 0 ==> parse_byte(s, i, NL) == Ok::<int, Error>(i + 1)
            && parse_palettes(s, i + 1, c.palettes.len() as int, Seq::<Seq<Rgba>>::empty())
            == Ok::<(Seq<Seq<Rgba>>, int), Error>((c.palettes, qi)),
        c.palettes.len() == 0 ==> qi == i,
        parse_images(s, qi, c.images.len() as int, (flags / 2) % 2 == 1,
            (flags / 4) % 2 == 1, flags % 2 == 1, gw, gh, Seq::<ImageView>::empty())
            == Ok::<(Seq<ImageView>, int), Error>((c.images, jend)),
    ensures
        parse_body_rest(s, i, flags, c.palettes.len() as int, c.images.len() as int, gw, gh)
            == Ok::<(CollectionView, int), Error>((c, jend)),
{
    if c.palettes.len() == 0 {
        assert(c.palettes =~= Seq::<Seq<Rgba>>::empty());
    }
    match parse_body_rest(s, i, flags, c.palettes.len() as int, c.images.len() as int, gw,
        gh) {
        Ok((got, j)) => {
            assert(got =~= c);
            assert(j == jend);
        },
        Err(_) => {
            assert(false);
        },
    }
}

/// Assembling a version-1 parse from the parse results of its header fields
/// and its body tail.
#[verifier::rlimit(100)]
#[verifier::spinoff_prover]
proof fn lemma_v1_eval(
    s: Seq<u8>,
    c: CollectionView,
    flags: int,
    gw: int,
    gh: int,
    j1: int,
    j3: int,
    j5: int,
    jend: int,
)
    requires
        parse_byte(s, 0, LA) == Ok::<int, Error>(1),
        parse_byte(s, 1, LH) == Ok::<int, Error>(2),
        parse_byte(s, 2, LI) == Ok::<int, Error>(3),
        parse_header_uint(s, 3, SP) == Ok::<(int, int), Error>((1, 5)),
        parse_byte(s, 5, LF) == Ok::<int, Error>(6),
        parse_hex_u32(s, 6, SP) == Ok::<(int, int), Error>((flags, j1)),
        parse_byte(s, j1, LP) == Ok::<int, Error>(j1 + 1),
        parse_header_uint(s, j1 + 1, SP)
            == Ok::<(int, int), Error>((c.palettes.len() as int, j3)),
        parse_byte(s, j3, LI) == Ok::<int, Error>(j3 + 1),
        flags % 2 == 1 ==> parse_header_uint(s, j3 + 1, NL)
            == Ok::<(int, int), Error>((c.images.len() as int, j5)) && gw == 0 && gh == 0,
        flags % 2 != 1 ==> ({
            let pn = j5 - 4 - crate::token::dec_digits(gw).len()
                - crate::token::dec_digits(gh).len();
            &&& parse_header_uint(s, j3 + 1, SP)
                == Ok::<(int, int), Error>((c.images.len() as int, pn))
            &&& parse_byte(s, pn, LW) == Ok::<int, Error>(pn + 1)
            &&& parse_header_uint(s, pn + 1, SP)
                == Ok::<(int, int), Error>((gw, j5 - 2
                    - crate::token::dec_digits(gh).len()))
            &&& parse_byte(s, j5 - 2 - crate::token::dec_digits(gh).len(), LH)
                == Ok::<int, Error>(j5 - 1 - crate::token::dec_digits(gh).len())
            &&& parse_header_uint(s, j5 - 1 - crate::token::dec_digits(gh).len(), NL)
                == Ok::<(int, int), Error>((gh, j5))
        }),
        parse_body_rest(s, j5, flags, c.palettes.len() as int, c.images.len() as int, gw, gh)
            == Ok::<(CollectionView, int), Error>((c, jend)),
    ensures
        parse_collection(s) == Ok::<(CollectionView, int), Error>((c, jend)),
{
    assert(parse_collection_body(s, 5, 1) == parse_v1_body(s, 5));
    match parse_v1_body(s, 5) {
        Ok((got, j)) => {
            assert(got == c);
            assert(j == jend);
        },
        Err(_) => {
            assert(false);
        },
    }
}

/// The version-0 print unfolded to its header and image blocks.
#[verifier::rlimit(100)]
#[verifier::spinoff_prover]
proof fn lemma_enc_v0_shape(c: CollectionView)
    requires
        use_v0(c),
    ensures
        enc_collection(c) == seq![LA, LH, LI, D0, SP, LW]
            + dec_digits(uniform_size(c.images)->Some_0.0) + seq![SP, LH]
            + dec_digits(uniform_size(c.images)->Some_0.1) + seq![SP, LN]
            + dec_digits(c.images.len() as int) + seq![NL]
            + enc_images_from(c.images, 0, false, false, false),
{
}

/// The version-1 print unfolded to its header, palette block and image
/// blocks.
#[verifier::rlimit(100)]
#[verifier::spinoff_prover]
proof fn lemma_enc_v1_shape(c: CollectionView)
    requires
        !use_v0(c),
    ensures
        enc_collection(c) == (seq![LA, LH, LI, D1, SP, LF]
            + enc_hex_upper(collection_flags(c)) + seq![SP, LP]
            + dec_digits(c.palettes.len() as int) + seq![SP, LI]
            + dec_digits(c.images.len() as int)
            + (match uniform_size(c.images) {
                Some(wh) => seq![SP, LW] + dec_digits(wh.0) + seq![SP, LH]
                    + dec_digits(wh.1),
                None => Seq::<u8>::empty(),
            })
            + seq![NL]) + ((if c.palettes.len() > 0 {
                seq![NL] + enc_palettes_from(c.palettes, 0)
            } else {
                Seq::<u8>::empty()
            }) + enc_images_from(c.images, 0, any_tags(c.images), any_metadata(c.images),
                uniform_size(c.images) is None)),
        enc_collection(c) == seq![LA, LH, LI, D1, SP, LF]
            + enc_hex_upper(collection_flags(c)) + seq![SP, LP]
            + dec_digits(c.palettes.len() as int) + seq![SP, LI]
            + dec_digits(c.images.len() as int)
            + (match uniform_size(c.images) {
                Some(wh) => seq![SP, LW] + dec_digits(wh.0) + seq![SP, LH]
                    + dec_digits(wh.1),
                None => Seq::<u8>::empty(),
            })
            + seq![NL]
            + (if c.palettes.len() > 0 {
                seq![NL] + enc_palettes_from(c.palettes, 0)
            } else {
                Seq::<u8>::empty()
            })
            + enc_images_from(c.images, 0, any_tags(c.images), any_metadata(c.images),
                uniform_size(c.images) is None),
{
    let hdr = seq![LA, LH, LI, D1, SP, LF] + enc_hex_upper(collection_flags(c))
        + seq![SP, LP] + dec_digits(c.palettes.len() as int) + seq![SP, LI]
        + dec_digits(c.images.len() as int)
        + (match uniform_size(c.images) {
            Some(wh) => seq![SP, LW] + dec_digits(wh.0) + seq![SP, LH] + dec_digits(wh.1),
            None => Seq::<u8>::empty(),
        })
        + seq![NL];
    let e_pal: Seq<u8> = if c.palettes.len() > 0 {
        seq![NL] + enc_palettes_from(c.palettes, 0)
    } else {
        Seq::<u8>::empty()
    };
    let e_imgs = enc_images_from(c.images, 0, any_tags(c.images), any_metadata(c.images),
        uniform_size(c.images) is None);
    assert(enc_collection(c) == (hdr + e_pal) + e_imgs);
    assert((hdr + e_pal) + e_imgs =~= hdr + (e_pal + e_imgs));
}

/// From the parsed header fields and the matched body region to the whole
/// version-1 parse.
#[verifier::rlimit(100)]
#[verifier::spinoff_prover]
proof fn lemma_v1_finish(
    s: Seq<u8>,
    c: CollectionView,
    flags: int,
    gw: int,
    gh: int,
    j1: int,
    j3: int,
    qb: int,
)
    requires
        encodable(c),
        flags == collection_flags(c),
        uniform_size(c.images) is Some ==> gw == uniform_size(c.images)->Some_0.0
            && gh == uniform_size(c.images)->Some_0.1,
        parse_byte(s, 0, LA) == Ok::<int, Error>(1),
        parse_byte(s, 1, LH) == Ok::<int, Error>(2),
        parse_byte(s, 2, LI) == Ok::<int, Error>(3),
        parse_header_uint(s, 3, SP) == Ok::<(int, int), Error>((1, 5)),
        parse_byte(s, 5, LF) == Ok::<int, Error>(6),
        parse_hex_u32(s, 6, SP) == Ok::<(int, int), Error>((flags, j1)),
        parse_byte(s, j1, LP) == Ok::<int, Error>(j1 + 1),
        parse_header_uint(s, j1 + 1, SP)
            == Ok::<(int, int), Error>((c.palettes.len() as int, j3)),
        parse_byte(s, j3, LI) == Ok::<int, Error>(j3 + 1),
        flags % 2 == 1 ==> parse_header_uint(s, j3 + 1, NL)
            == Ok::<(int, int), Error>((c.images.len() as int, qb)) && gw == 0 && gh == 0,
        flags % 2 != 1 ==> ({
            let pn = qb - 4 - crate::token::dec_digits(gw).len()
                - crate::token::dec_digits(gh).len();
            &&& parse_header_uint(s, j3 + 1, SP)
                == Ok::<(int, int), Error>((c.images.len() as int, pn))
            &&& parse_byte(s, pn, LW) == Ok::<int, Error>(pn + 1)
            &&& parse_header_uint(s, pn + 1, SP)
                == Ok::<(int, int), Error>((gw, qb - 2
                    - crate::token::dec_digits(gh).len()))
            &&& parse_byte(s, qb - 2 - crate::token::dec_digits(gh).len(), LH)
                == Ok::<int, Error>(qb - 1 - crate::token::dec_digits(gh).len())
            &&& parse_header_uint(s, qb - 1 - crate::token::dec_digits(gh).len(), NL)
                == Ok::<(int, int), Error>((gh, qb))
        }),
        0 <= qb <= s.len(),
        s.subrange(qb, s.len() as int) == (if c.palettes.len() > 0 {
            seq![NL] + enc_palettes_from(c.palettes, 0)
        } else {
            Seq::<u8>::empty()
        }) + enc_images_from(c.images, 0, any_tags(c.images), any_metadata(c.images),
            uniform_size(c.images) is None),
    ensures
        decode_collection(s) == Ok::<CollectionView, Error>(c),
{
    let tags = any_tags(c.images);
    let metas = any_metadata(c.images);
    let dims = uniform_size(c.images) is None;
    let e_pal: Seq<u8> = if c.palettes.len() > 0 {
        seq![NL] + enc_palettes_from(c.palettes, 0)
    } else {
        Seq::<u8>::empty()
    };
    let e_imgs = enc_images_from(c.images, 0, tags, metas, dims);
    assert(flags == (if dims { 1int } else { 0int }) + (if tags { 2int } else { 0int })
        + (if metas { 4int } else { 0int }));
    assert((flags % 2 == 1) == dims);
    assert(((flags / 2) % 2 == 1) == tags);
    assert(((flags / 4) % 2 == 1) == metas);
    lemma_v1_tail(s, qb, c, tags, metas, dims, gw, gh);
    let qi: int = qb + e_pal.len() as int;
    if c.palettes.len() == 0 {
        assert(qi == qb);
    }
    let jend = qi + e_imgs.len() as int;
    lemma_body_rest_eval(s, c, flags, qb, qi, jend, gw, gh);
    lemma_v1_eval(s, c, flags, gw, gh, j1, j3, qb, jend);
}

/// The version-1 half of the round trip.
#[verifier::rlimit(100)]
#[verifier::spinoff_prover]
proof fn lemma_collection_round_trip_v1(c: CollectionView)
    requires
        encodable(c),
        !use_v0(c),
    ensures
        decode_collection(enc_collection(c)) == Ok::<CollectionView, Error>(c),
        enc_collection(c).subrange(0, 4) == seq![LA, LH, LI, D1],
{
    let s = enc_collection(c);
    let n = c.images.len() as int;
    let np = c.palettes.len() as int;
    let flags = collection_flags(c);
    let tags = any_tags(c.images);
    let metas = any_metadata(c.images);
    let dims = uniform_size(c.images) is None;
    let gs: Option<(int, int)> = uniform_size(c.images);
    let e_pal: Seq<u8> = if np > 0 {
        seq![NL] + enc_palettes_from(c.palettes, 0)
    } else {
        Seq::<u8>::empty()
    };
    let e_imgs = enc_images_from(c.images, 0, tags, metas, dims);
    let tail = e_pal + e_imgs;
    assert(gs matches Some(wh) ==> 0 <= wh.0 <= 0xFFFF && 0 <= wh.1 <= 0xFFFF) by {
        if c.images.len() > 0 {
            assert(c.images[0].width <= 0xFFFF && c.images[0].height <= 0xFFFF);
        }
    }
    assert(0 <= flags < 0x100000000) by {
        assert(flags == (if dims { 1int } else { 0int }) + (if tags { 2int } else { 0int })
            + (if metas { 4int } else { 0int }));
    }
    let hdr = seq![LA, LH, LI, D1, SP, LF] + enc_hex_upper(flags) + seq![SP, LP]
        + dec_digits(np) + seq![SP, LI] + dec_digits(n)
        + (match gs {
            Some(wh) => seq![SP, LW] + dec_digits(wh.0) + seq![SP, LH] + dec_digits(wh.1),
            None => Seq::<u8>::empty(),
        })
        + seq![NL];
    lemma_enc_v1_shape(c);
    assert(s == hdr + tail);
    lemma_v1_header(s, flags, np, n, gs, tail);
    let hf = enc_hex_upper(flags).len() as int;
    let dp = dec_digits(np).len() as int;
    let dn = dec_digits(n).len() as int;
    let e_gs_len: int = match gs {
        Some(wh) => 2 + dec_digits(wh.0).len() as int + 2 + dec_digits(wh.1).len() as int,
        None => 0,
    };
    let qb = 11 + hf + dp + dn + e_gs_len;
    assert(qb == 11 + hf + dp + dn + (match gs {
        Some(wh) => seq![SP, LW] + dec_digits(wh.0) + seq![SP, LH] + dec_digits(wh.1),
        None => Seq::<u8>::empty(),
    }).len());
    let (gw, gh): (int, int) = match gs {
        Some(wh) => (wh.0, wh.1),
        None => (0int, 0int),
    };
    lemma_v1_finish(s, c, flags, gw, gh, 7 + hf, 9 + hf + dp, qb);
}

/// The version-0 round-trip law: a collection with no palettes, uniform
/// image sizes, no tags and no metadata decodes from its own encoding, and
/// that encoding is the version-0 form.
#[verifier::rlimit(50)]
pub proof fn lemma_round_trip_v0(c: CollectionView)
    requires
        encodable(c),
        c.palettes.len() == 0,
        uniform_size(c.images) is Some,
        !any_tags(c.images),
        !any_metadata(c.images),
    ensures
        decode_collection(enc_collection(c)) == Ok::<CollectionView, Error>(c),
        enc_collection(c).subrange(0, 4) == seq![LA, LH, LI, D0],
{
    assert(use_v0(c));
    lemma_collection_round_trip_v0(c);
}

/// The general round-trip law: every collection within the format's bounds
/// decodes from its own encoding, and when the version-1 form is needed its
/// flag word holds exactly the bits for per-image sizes, tags and metadata.
#[verifier::rlimit(50)]
pub proof fn lemma_round_trip(c: CollectionView)
    requires
        encodable(c),
    ensures
        decode_collection(enc_collection(c)) == Ok::<CollectionView, Error>(c),
        (collection_flags(c) % 2 == 1) == (uniform_size(c.images) is None),
        ((collection_flags(c) / 2) % 2 == 1) == any_tags(c.images),
        ((collection_flags(c) / 4) % 2 == 1) == any_metadata(c.images),
        !use_v0(c) ==> enc_collection(c).subrange(0, 4) == seq![LA, LH, LI, D1],
{
    if use_v0(c) {
        lemma_collection_round_trip_v0(c);
    } else {
        lemma_collection_round_trip_v1(c);
    }
}

} // verus!
