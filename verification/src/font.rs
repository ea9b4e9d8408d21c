//! Bitmap fonts: a character-keyed table of glyphs with one shared glyph
//! height, a default glyph for unmapped characters, and a baseline.
//!
//! The text form is `ahf0 h<height> b<baseline> n<count>`, a blank line, the
//! default glyph introduced by `def `, and then each keyed glyph introduced
//! by its quoted character, in ascending character order.  A glyph carries
//! `w<width> l<left> r<right>` and its pixel grid.

use vstd::prelude::*;
use crate::ascii::{LA, LB, LD, LE, LF, LH, LL, LN, LR, LW, NL, SP, D0};
use crate::error::Error;
use crate::image::{enc_grid, parse_grid, Image, ImageView};
use crate::text::{
    enc_quoted_char, parse_quoted_char, read_quoted_char, write_quoted_char,
};
use crate::token::{
    dec_digits, enc_dec_int, parse_byte, parse_header_int, parse_header_uint, read_exact_byte,
    read_header_int, read_header_uint, write_dec_i32, write_dec_u32,
};
use crate::color::Color;

verus! {

/// The mathematical model of a glyph: its image and its two layout edges.
#[verifier::ext_equal]
pub ghost struct GlyphView {
    /// The glyph's image.
    pub image: ImageView,
    /// The left edge: where the glyph starts, relative to its image's left.
    pub left: int,
    /// The right edge: where the next glyph starts.
    pub right: int,
}

/// An image for a single character in a font, along with spacing
/// information.
#[derive(Clone, Debug)]
pub struct Glyph {
    image: Image,
    left: i32,
    right: i32,
}

impl View for Glyph {
    type V = GlyphView;

    closed spec fn view(&self) -> GlyphView {
        GlyphView { image: self.image@, left: self.left as int, right: self.right as int }
    }
}

impl Glyph {
    /// Creates a new glyph with the given image and left/right edges.
    pub fn new(image: Image, left: i32, right: i32) -> (g: Glyph)
        ensures
            g@ == (GlyphView { image: image@, left: left as int, right: right as int }),
    {
        Glyph { image, left, right }
    }

    /// The image for this glyph.
    pub fn image(&self) -> (img: &Image)
        ensures
            img@ == self@.image,
    {
        &self.image
    }

    /// The left edge of this glyph, in pixels: the distance (possibly
    /// negative) from the left edge of the image at which the glyph starts.
    pub fn left_edge(&self) -> (l: i32)
        ensures
            l as int == self@.left,
    {
        self.left
    }

    /// Sets the left edge for this glyph.
    pub fn set_left_edge(&mut self, left: i32)
        ensures
            final(self)@ == (GlyphView { left: left as int, ..old(self)@ }),
    {
        self.left = left;
    }

    /// The right edge of this glyph, in pixels: the distance (possibly
    /// negative) from the left edge of the image at which the next glyph
    /// starts.
    pub fn right_edge(&self) -> (r: i32)
        ensures
            r as int == self@.right,
    {
        self.right
    }

    /// Sets the right edge for this glyph.
    pub fn set_right_edge(&mut self, right: i32)
        ensures
            final(self)@ == (GlyphView { right: right as int, ..old(self)@ }),
    {
        self.right = right;
    }
}

// ===================================================================== //
//  The ordered glyph table                                              //
// ===================================================================== //

/// Whether a glyph table is sorted by strictly ascending character code.
pub open spec fn glyphs_sorted(gs: Seq<(char, GlyphView)>) -> bool {
    forall|k1: int, k2: int| 0 <= k1 < k2 < gs.len()
        ==> ((#[trigger] gs[k1]).0 as u32) < ((#[trigger] gs[k2]).0 as u32)
}

/// The glyph a table maps a character to, if any.
pub open spec fn spec_get_glyph(gs: Seq<(char, GlyphView)>, c: char) -> Option<GlyphView>
    decreases gs.len(),
{
    if gs.len() == 0 {
        None
    } else if gs[0].0 == c {
        Some(gs[0].1)
    } else {
        spec_get_glyph(gs.drop_first(), c)
    }
}

/// The table with the glyph for `c` replaced or inserted, keeping the order.
pub open spec fn spec_insert_glyph(
    gs: Seq<(char, GlyphView)>,
    c: char,
    g: GlyphView,
) -> Seq<(char, GlyphView)>
    decreases gs.len(),
{
    if gs.len() == 0 {
        seq![(c, g)]
    } else if (c as u32) < (gs[0].0 as u32) {
        seq![(c, g)] + gs
    } else if c as u32 == gs[0].0 as u32 {
        gs.update(0, (c, g))
    } else {
        seq![gs[0]] + spec_insert_glyph(gs.drop_first(), c, g)
    }
}

/// The table with the glyph for `c` removed, if it was there.
pub open spec fn spec_remove_glyph(gs: Seq<(char, GlyphView)>, c: char) -> Seq<
    (char, GlyphView),
>
    decreases gs.len(),
{
    if gs.len() == 0 {
        gs
    } else if gs[0].0 == c {
        gs.drop_first()
    } else {
        seq![gs[0]] + spec_remove_glyph(gs.drop_first(), c)
    }
}

/// The mathematical model of a font: its ordered glyph table, default glyph
/// and baseline.
#[verifier::ext_equal]
pub ghost struct FontView {
    /// The keyed glyphs, sorted by character code.
    pub glyphs: Seq<(char, GlyphView)>,
    /// The glyph used for characters that have no entry.
    pub default_glyph: GlyphView,
    /// The baseline, in pixels down from the top of a glyph.
    pub baseline: int,
}

impl FontView {
    /// The table is sorted and every glyph's image has the font's height.
    pub open spec fn wf(self) -> bool {
        &&& glyphs_sorted(self.glyphs)
        &&& self.default_glyph.image.wf()
        &&& forall|k: int| 0 <= k < self.glyphs.len()
            ==> (#[trigger] self.glyphs[k]).1.image.wf()
                && self.glyphs[k].1.image.height == self.default_glyph.image.height
    }

    /// The height shared by every glyph image in the font.
    pub open spec fn glyph_height(self) -> int {
        self.default_glyph.image.height
    }
}

/// Represents a mapping from characters to glyphs.
#[derive(Clone, Debug)]
pub struct Font {
    glyphs: Vec<(char, Glyph)>,
    default_glyph: Glyph,
    baseline: i32,
}

impl View for Font {
    type V = FontView;

    closed spec fn view(&self) -> FontView {
        FontView {
            glyphs: self.glyphs@.map_values(|e: (char, Glyph)| (e.0, e.1@)),
            default_glyph: self.default_glyph@,
            baseline: self.baseline as int,
        }
    }
}

/// Looking a character up after an insertion finds the new glyph for that
/// character and the old answer for every other.
pub proof fn lemma_get_insert_glyph(
    gs: Seq<(char, GlyphView)>,
    c: char,
    g: GlyphView,
    c2: char,
)
    requires
        glyphs_sorted(gs),
    ensures
        glyphs_sorted(spec_insert_glyph(gs, c, g)),
        spec_get_glyph(spec_insert_glyph(gs, c, g), c2) == (if c2 == c {
            Some(g)
        } else {
            spec_get_glyph(gs, c2)
        }),
    decreases gs.len(),
{
    vstd::utf8::char_u32_cast(c, c as u32);
    if gs.len() == 0 {
        let r = spec_insert_glyph(gs, c, g);
        assert(r == seq![(c, g)]);
        assert(r[0] == (c, g));
        if c2 == c {
            assert(spec_get_glyph(r, c2) == Some(g));
        } else {
            assert(r[0].0 != c2);
            assert(r.drop_first() =~= Seq::<(char, GlyphView)>::empty());
            assert(spec_get_glyph(Seq::<(char, GlyphView)>::empty(), c2)
                == None::<GlyphView>);
            assert(spec_get_glyph(r, c2) == spec_get_glyph(r.drop_first(), c2));
        }
    } else if (c as u32) < (gs[0].0 as u32) {
        let r = seq![(c, g)] + gs;
        assert(r.drop_first() =~= gs);
        assert(gs[0].0 as u32 != c as u32);
        lemma_char_neq(c, gs[0].0);
        assert(r[0] == (c, g));
        if c2 == c {
            assert(spec_get_glyph(r, c2) == Some(g));
        } else {
            assert(r[0].0 != c2);
            assert(spec_get_glyph(r, c2) == spec_get_glyph(gs, c2));
        }
        assert forall|k1: int, k2: int| 0 <= k1 < k2 < r.len()
            implies ((#[trigger] r[k1]).0 as u32) < ((#[trigger] r[k2]).0 as u32) by {
            if k1 == 0 {
                if k2 > 1 {
                    assert((gs[0].0 as u32) < (gs[k2 - 1].0 as u32));
                }
            } else {
                assert(r[k1] == gs[k1 - 1] && r[k2] == gs[k2 - 1]);
            }
        }
    } else if c as u32 == gs[0].0 as u32 {
        vstd::utf8::char_u32_cast(gs[0].0, gs[0].0 as u32);
        assert(gs[0].0 == c);
        let r = gs.update(0, (c, g));
        assert(r[0] == (c, g));
        assert(r.drop_first() =~= gs.drop_first());
        if c2 == c {
            assert(spec_get_glyph(r, c2) == Some(g));
        } else {
            assert(r[0].0 != c2);
            assert(spec_get_glyph(r, c2) == spec_get_glyph(gs.drop_first(), c2));
            assert(gs[0].0 != c2);
            assert(spec_get_glyph(gs, c2) == spec_get_glyph(gs.drop_first(), c2));
        }
        assert forall|k1: int, k2: int| 0 <= k1 < k2 < r.len()
            implies ((#[trigger] r[k1]).0 as u32) < ((#[trigger] r[k2]).0 as u32) by {
            if k1 > 0 {
                assert(r[k1] == gs[k1]);
            }
            assert(r[k2] == gs[k2]);
            assert((gs[k1].0 as u32) < (gs[k2].0 as u32));
        }
    } else {
        let tl = gs.drop_first();
        assert(glyphs_sorted(tl)) by {
            assert(forall|k1: int, k2: int| 0 <= k1 < k2 < tl.len()
                ==> ((#[trigger] tl[k1]).0 as u32) < ((#[trigger] tl[k2]).0 as u32)) by {
                assert(forall|k: int| 0 <= k < tl.len() ==> #[trigger] tl[k] == gs[k + 1]);
            }
        }
        lemma_get_insert_glyph(tl, c, g, c2);
        let r = seq![gs[0]] + spec_insert_glyph(tl, c, g);
        assert(r.drop_first() =~= spec_insert_glyph(tl, c, g));
        lemma_char_neq(gs[0].0, c);
        assert(r[0] == gs[0]);
        if c2 == gs[0].0 {
            assert(spec_get_glyph(r, c2) == Some(gs[0].1));
            assert(spec_get_glyph(gs, c2) == Some(gs[0].1));
            assert(c2 != c);
        } else {
            assert(spec_get_glyph(r, c2) == spec_get_glyph(spec_insert_glyph(tl, c, g), c2));
            assert(spec_get_glyph(gs, c2) == spec_get_glyph(tl, c2));
        }
        lemma_insert_glyph_keys(tl, c, g);
        assert forall|k1: int, k2: int| 0 <= k1 < k2 < r.len()
            implies ((#[trigger] r[k1]).0 as u32) < ((#[trigger] r[k2]).0 as u32) by {
            if k1 == 0 {
                let e = spec_insert_glyph(tl, c, g)[k2 - 1];
                if tl.contains(e) {
                    let m = choose|m: int| 0 <= m < tl.len() && tl[m] == e;
                    assert(tl[m] == gs[m + 1]);
                    assert((gs[0].0 as u32) < (gs[m + 1].0 as u32));
                } else {
                    assert(e.0 == c);
                }
            }
        }
    }
}

/// Two characters with different codes are different.
proof fn lemma_char_neq(c1: char, c2: char)
    requires
        c1 as u32 != c2 as u32,
    ensures
        c1 != c2,
{
}

/// Every entry of an inserted table comes from the old table or carries the
/// inserted key.
proof fn lemma_insert_glyph_keys(gs: Seq<(char, GlyphView)>, c: char, g: GlyphView)
    ensures
        spec_insert_glyph(gs, c, g).len() <= gs.len() + 1,
        forall|k: int| 0 <= k < spec_insert_glyph(gs, c, g).len()
            ==> gs.contains(#[trigger] spec_insert_glyph(gs, c, g)[k])
                || spec_insert_glyph(gs, c, g)[k].0 == c,
    decreases gs.len(),
{
    let r = spec_insert_glyph(gs, c, g);
    if gs.len() == 0 {
    } else if (c as u32) < (gs[0].0 as u32) {
        assert forall|k: int| 0 <= k < r.len()
            implies gs.contains(#[trigger] r[k]) || r[k].0 == c by {
            if k > 0 {
                assert(r[k] == gs[k - 1]);
            }
        }
    } else if c as u32 == gs[0].0 as u32 {
        assert forall|k: int| 0 <= k < r.len()
            implies gs.contains(#[trigger] r[k]) || r[k].0 == c by {
            if k > 0 {
                assert(r[k] == gs[k]);
            } else {
                vstd::utf8::char_u32_cast(gs[0].0, gs[0].0 as u32);
                vstd::utf8::char_u32_cast(c, c as u32);
            }
        }
    } else {
        let tl = gs.drop_first();
        lemma_insert_glyph_keys(tl, c, g);
        assert forall|k: int| 0 <= k < r.len()
            implies gs.contains(#[trigger] r[k]) || r[k].0 == c by {
            if k == 0 {
                assert(gs[0] == r[0]);
            } else {
                let e = r[k];
                assert(e == spec_insert_glyph(tl, c, g)[k - 1]);
                if tl.contains(e) {
                    let m = choose|m: int| 0 <= m < tl.len() && tl[m] == e;
                    assert(gs[m + 1] == e);
                }
            }
        }
    }
}

/// Looking a character up after a removal finds nothing for that character
/// and the old answer for every other.
pub proof fn lemma_get_remove_glyph(gs: Seq<(char, GlyphView)>, c: char, c2: char)
    requires
        glyphs_sorted(gs),
    ensures
        glyphs_sorted(spec_remove_glyph(gs, c)),
        spec_get_glyph(spec_remove_glyph(gs, c), c2) == (if c2 == c {
            None
        } else {
            spec_get_glyph(gs, c2)
        }),
    decreases gs.len(),
{
    let r = spec_remove_glyph(gs, c);
    if gs.len() == 0 {
    } else if gs[0].0 == c {
        let tl = gs.drop_first();
        assert(r == tl);
        assert(forall|k: int| 0 <= k < tl.len() ==> #[trigger] tl[k] == gs[k + 1]);
        if c2 == c {
            lemma_sorted_get_none(tl, c, gs[0].0 as u32);
        }
    } else {
        let tl = gs.drop_first();
        assert(glyphs_sorted(tl)) by {
            assert(forall|k: int| 0 <= k < tl.len() ==> #[trigger] tl[k] == gs[k + 1]);
        }
        lemma_get_remove_glyph(tl, c, c2);
        assert(r == seq![gs[0]] + spec_remove_glyph(tl, c));
        assert(r.drop_first() =~= spec_remove_glyph(tl, c));
        lemma_remove_glyph_keys(tl, c);
        assert forall|k1: int, k2: int| 0 <= k1 < k2 < r.len()
            implies ((#[trigger] r[k1]).0 as u32) < ((#[trigger] r[k2]).0 as u32) by {
            if k1 == 0 {
                let e = spec_remove_glyph(tl, c)[k2 - 1];
                assert(tl.contains(e));
                let m = choose|m: int| 0 <= m < tl.len() && tl[m] == e;
                assert(tl[m] == gs[m + 1]);
                assert((gs[0].0 as u32) < (gs[m + 1].0 as u32));
            }
        }
    }
}

/// In a table whose keys all lie above a bound, a character at or below the
/// bound is absent.
proof fn lemma_sorted_get_none(gs: Seq<(char, GlyphView)>, c: char, bound: u32)
    requires
        forall|k: int| 0 <= k < gs.len() ==> ((#[trigger] gs[k]).0 as u32) > bound,
        c as u32 <= bound,
    ensures
        spec_get_glyph(gs, c) == None::<GlyphView>,
    decreases gs.len(),
{
    if gs.len() > 0 {
        assert((gs[0].0 as u32) > bound);
        lemma_char_neq(gs[0].0, c);
        let tl = gs.drop_first();
        assert(forall|k: int| 0 <= k < tl.len() ==> #[trigger] tl[k] == gs[k + 1]);
        lemma_sorted_get_none(tl, c, bound);
    }
}

/// Every entry of a table after a removal comes from the old table.
proof fn lemma_remove_glyph_keys(gs: Seq<(char, GlyphView)>, c: char)
    ensures
        forall|k: int| 0 <= k < spec_remove_glyph(gs, c).len()
            ==> gs.contains(#[trigger] spec_remove_glyph(gs, c)[k]),
    decreases gs.len(),
{
    let r = spec_remove_glyph(gs, c);
    if gs.len() == 0 {
    } else if gs[0].0 == c {
        assert forall|k: int| 0 <= k < r.len() implies gs.contains(#[trigger] r[k]) by {
            assert(r[k] == gs[k + 1]);
        }
    } else {
        let tl = gs.drop_first();
        lemma_remove_glyph_keys(tl, c);
        assert forall|k: int| 0 <= k < r.len() implies gs.contains(#[trigger] r[k]) by {
            if k == 0 {
                assert(r[0] == gs[0]);
            } else {
                let e = r[k];
                assert(e == spec_remove_glyph(tl, c)[k - 1]);
                assert(tl.contains(e));
                let m = choose|m: int| 0 <= m < tl.len() && tl[m] == e;
                assert(gs[m + 1] == e);
            }
        }
    }
}

// ===================================================================== //
//  Scan positions and the table functions                               //
// ===================================================================== //

/// Inserting at the scan position is the ordered insertion.
proof fn lemma_insert_at(gs: Seq<(char, GlyphView)>, c: char, g: GlyphView, k: int)
    requires
        glyphs_sorted(gs),
        0 <= k <= gs.len(),
        forall|m: int| 0 <= m < k ==> ((#[trigger] gs[m]).0 as u32) < c as u32,
        k < gs.len() ==> (gs[k].0 as u32) >= c as u32,
    ensures
        spec_insert_glyph(gs, c, g) == (if k < gs.len() && gs[k].0 as u32 == c as u32 {
            gs.update(k, (c, g))
        } else {
            gs.insert(k, (c, g))
        }),
    decreases k,
{
    if k == 0 {
        if gs.len() == 0 {
            assert(spec_insert_glyph(gs, c, g) =~= gs.insert(0, (c, g)));
        } else if (c as u32) < (gs[0].0 as u32) {
            assert(spec_insert_glyph(gs, c, g) =~= gs.insert(0, (c, g)));
        } else {
            assert(gs[0].0 as u32 == c as u32);
        }
    } else {
        assert((gs[0].0 as u32) < c as u32);
        let tl = gs.drop_first();
        assert(glyphs_sorted(tl)) by {
            assert(forall|m: int| 0 <= m < tl.len() ==> #[trigger] tl[m] == gs[m + 1]);
        }
        assert(forall|m: int| 0 <= m < k - 1
            ==> ((#[trigger] tl[m]).0 as u32) < c as u32) by {
            assert(forall|m: int| 0 <= m < tl.len() ==> #[trigger] tl[m] == gs[m + 1]);
        }
        assert(k - 1 < tl.len() ==> (tl[k - 1].0 as u32) >= c as u32) by {
            if k - 1 < tl.len() {
                assert(tl[k - 1] == gs[k]);
            }
        }
        lemma_insert_at(tl, c, g, k - 1);
        if k < gs.len() && gs[k].0 as u32 == c as u32 {
            assert(tl[k - 1] == gs[k]);
            assert(seq![gs[0]] + tl.update(k - 1, (c, g)) =~= gs.update(k, (c, g)));
        } else {
            assert(seq![gs[0]] + tl.insert(k - 1, (c, g)) =~= gs.insert(k, (c, g)));
        }
    }
}

/// Removing at the scan position is the keyed removal.
proof fn lemma_remove_at(gs: Seq<(char, GlyphView)>, c: char, k: int)
    requires
        0 <= k < gs.len(),
        forall|m: int| 0 <= m < k ==> (#[trigger] gs[m]).0 != c,
        gs[k].0 == c,
    ensures
        spec_remove_glyph(gs, c) == gs.remove(k),
    decreases k,
{
    if k == 0 {
        assert(spec_remove_glyph(gs, c) =~= gs.remove(0));
    } else {
        let tl = gs.drop_first();
        assert(forall|m: int| 0 <= m < tl.len() ==> #[trigger] tl[m] == gs[m + 1]);
        lemma_remove_at(tl, c, k - 1);
        assert(seq![gs[0]] + tl.remove(k - 1) =~= gs.remove(k));
    }
}

/// Removing an absent key changes nothing.
proof fn lemma_remove_absent(gs: Seq<(char, GlyphView)>, c: char)
    requires
        forall|m: int| 0 <= m < gs.len() ==> (#[trigger] gs[m]).0 != c,
    ensures
        spec_remove_glyph(gs, c) == gs,
    decreases gs.len(),
{
    if gs.len() > 0 {
        let tl = gs.drop_first();
        assert(forall|m: int| 0 <= m < tl.len() ==> #[trigger] tl[m] == gs[m + 1]);
        lemma_remove_absent(tl, c);
        assert(seq![gs[0]] + tl =~= gs);
    }
}

/// The lookup finds the first entry with the key.
proof fn lemma_get_at(gs: Seq<(char, GlyphView)>, c: char, k: int)
    requires
        0 <= k < gs.len(),
        forall|m: int| 0 <= m < k ==> (#[trigger] gs[m]).0 != c,
        gs[k].0 == c,
    ensures
        spec_get_glyph(gs, c) == Some(gs[k].1),
    decreases k,
{
    if k > 0 {
        let tl = gs.drop_first();
        assert(forall|m: int| 0 <= m < tl.len() ==> #[trigger] tl[m] == gs[m + 1]);
        lemma_get_at(tl, c, k - 1);
    }
}

/// The lookup finds nothing when no entry has the key.
proof fn lemma_get_absent(gs: Seq<(char, GlyphView)>, c: char)
    requires
        forall|m: int| 0 <= m < gs.len() ==> (#[trigger] gs[m]).0 != c,
    ensures
        spec_get_glyph(gs, c) == None::<GlyphView>,
    decreases gs.len(),
{
    if gs.len() > 0 {
        let tl = gs.drop_first();
        assert(forall|m: int| 0 <= m < tl.len() ==> #[trigger] tl[m] == gs[m + 1]);
        lemma_get_absent(tl, c);
    }
}

impl Font {
    /// Creates a new, empty font whose glyphs have the given height, in
    /// pixels.  The initial default glyph is a zero-width space, and the
    /// initial baseline equals the height.
    pub fn with_glyph_height(height: u32) -> (f: Font)
        requires
            height <= 0x7FFFFFFF,
        ensures
            f@.wf(),
            f@.glyphs.len() == 0,
            f@.glyph_height() == height as int,
            f@.default_glyph.image.width == 0,
            f@.default_glyph.left == 0,
            f@.default_glyph.right == 0,
            f@.baseline == height as int,
    {
        let img = Image::new(0, height);
        let f = Font {
            glyphs: Vec::new(),
            default_glyph: Glyph::new(img, 0, 0),
            baseline: height as i32,
        };
        proof {
            assert(f@.glyphs =~= Seq::<(char, GlyphView)>::empty());
        }
        f
    }

    /// The image height of the glyphs in this font, in pixels.
    pub fn glyph_height(&self) -> (h: u32)
        ensures
            h as int == self@.glyph_height(),
    {
        self.default_glyph.image().height()
    }

    /// The baseline height for this font, measured in pixels down from the
    /// top of a glyph.
    pub fn baseline(&self) -> (b: i32)
        ensures
            b as int == self@.baseline,
    {
        self.baseline
    }

    /// Sets the baseline value for this font.
    pub fn set_baseline(&mut self, baseline: i32)
        ensures
            final(self)@ == (FontView { baseline: baseline as int, ..old(self)@ }),
    {
        self.baseline = baseline;
    }

    /// The glyph for the given character, if the font has one.
    pub fn get_char_glyph(&self, chr: char) -> (r: Option<&Glyph>)
        ensures
            match r {
                Some(g) => spec_get_glyph(self@.glyphs, chr) == Some(g@),
                None => spec_get_glyph(self@.glyphs, chr) == None::<GlyphView>,
            },
    {
        let ghost gv = self@.glyphs;
        let mut k: usize = 0;
        while k < self.glyphs.len()
            invariant
                gv == self@.glyphs,
                k <= self.glyphs@.len(),
                gv.len() == self.glyphs@.len(),
                forall|m: int| 0 <= m < k ==> (#[trigger] gv[m]).0 != chr,
            decreases self.glyphs@.len() - k,
        {
            if self.glyphs[k].0 == chr {
                proof {
                    assert(gv[k as int].0 == self.glyphs@[k as int].0);
                    assert(gv[k as int].0 == chr);
                    lemma_get_at(gv, chr, k as int);
                }
                return Some(&self.glyphs[k].1);
            }
            proof {
                assert(gv[k as int].0 == self.glyphs@[k as int].0);
            }
            k = k + 1;
        }
        proof {
            lemma_get_absent(gv, chr);
        }
        None
    }

    /// The glyph this font uses for the given character: its own glyph when
    /// it has one, else the default glyph.
    pub fn glyph(&self, chr: char) -> (g: &Glyph)
        ensures
            g@ == (match spec_get_glyph(self@.glyphs, chr) {
                Some(v) => v,
                None => self@.default_glyph,
            }),
    {
        match self.get_char_glyph(chr) {
            Some(g) => g,
            None => &self.default_glyph,
        }
    }

    /// Sets the glyph for the given character.  The new glyph's image must
    /// have the font's glyph height: a glyph is never silently truncated or
    /// padded to fit.
    pub fn set_char_glyph(&mut self, chr: char, glyph: Glyph)
        requires
            old(self)@.wf(),
            glyph@.image.wf(),
            glyph@.image.height == old(self)@.glyph_height(),
        ensures
            final(self)@.wf(),
            final(self)@.glyphs == spec_insert_glyph(old(self)@.glyphs, chr, glyph@),
            final(self)@.default_glyph == old(self)@.default_glyph,
            final(self)@.baseline == old(self)@.baseline,
    {
        let ghost gv = old(self)@.glyphs;
        let ghost gvw = glyph@;
        let code = chr as u32;
        let mut k: usize = 0;
        while k < self.glyphs.len() && (self.glyphs[k].0 as u32) < code
            invariant
                self == old(self),
                gv == self@.glyphs,
                k <= self.glyphs@.len(),
                gv.len() == self.glyphs@.len(),
                forall|m: int| 0 <= m < k ==> ((#[trigger] gv[m]).0 as u32) < code,
            decreases self.glyphs@.len() - k,
        {
            proof {
                assert(gv[k as int].0 == self.glyphs@[k as int].0);
            }
            k = k + 1;
        }
        proof {
            if k < self.glyphs@.len() {
                assert(gv[k as int].0 == self.glyphs@[k as int].0);
            }
            lemma_insert_at(gv, chr, gvw, k as int);
            lemma_insert_glyph_keys(gv, chr, gvw);
            lemma_get_insert_glyph(gv, chr, gvw, chr);
        }
        if k < self.glyphs.len() && self.glyphs[k].0 as u32 == code {
            proof {
                vstd::utf8::char_u32_cast(self.glyphs@[k as int].0,
                    self.glyphs@[k as int].0 as u32);
                vstd::utf8::char_u32_cast(chr, code);
                assert(self.glyphs@[k as int].0 == chr);
            }
            self.glyphs[k] = (chr, glyph);
            proof {
                assert(self@.glyphs =~= gv.update(k as int, (chr, gvw)));
            }
        } else {
            self.glyphs.insert(k, (chr, glyph));
            proof {
                assert(self@.glyphs =~= gv.insert(k as int, (chr, gvw)));
            }
        }
        proof {
            let r = spec_insert_glyph(gv, chr, gvw);
            assert forall|m: int| 0 <= m < r.len()
                implies (#[trigger] r[m]).1.image.wf()
                    && r[m].1.image.height == final(self)@.default_glyph.image.height by {
                if gv.contains(r[m]) {
                    let w = choose|w: int| 0 <= w < gv.len() && gv[w] == r[m];
                    assert(gv[w].1.image.wf());
                } else {
                    assert(r[m].0 == chr || r[m] == (chr, gvw));
                    lemma_insert_member(gv, chr, gvw, m);
                }
            }
        }
    }

    /// Removes the glyph for the given character from the font.  After this,
    /// the font's default glyph serves for that character.
    pub fn remove_char_glyph(&mut self, chr: char)
        requires
            old(self)@.wf(),
        ensures
            final(self)@.wf(),
            final(self)@.glyphs == spec_remove_glyph(old(self)@.glyphs, chr),
            final(self)@.default_glyph == old(self)@.default_glyph,
            final(self)@.baseline == old(self)@.baseline,
    {
        let ghost gv = old(self)@.glyphs;
        let mut k: usize = 0;
        while k < self.glyphs.len()
            invariant
                self == old(self),
                old(self)@.wf(),
                gv == self@.glyphs,
                k <= self.glyphs@.len(),
                gv.len() == self.glyphs@.len(),
                forall|m: int| 0 <= m < k ==> (#[trigger] gv[m]).0 != chr,
            decreases self.glyphs@.len() - k,
        {
            if self.glyphs[k].0 == chr {
                proof {
                    assert(gv[k as int].0 == self.glyphs@[k as int].0);
                    assert(gv[k as int].0 == chr);
                    lemma_remove_at(gv, chr, k as int);
                }
                self.glyphs.remove(k);
                proof {
                    assert(self@.glyphs =~= gv.remove(k as int));
                    lemma_get_remove_glyph(gv, chr, chr);
                    lemma_remove_glyph_keys(gv, chr);
                    let r = spec_remove_glyph(gv, chr);
                    assert forall|m: int| 0 <= m < r.len()
                        implies (#[trigger] r[m]).1.image.wf()
                            && r[m].1.image.height
                                == final(self)@.default_glyph.image.height by {
                        assert(gv.contains(r[m]));
                        let w = choose|w: int| 0 <= w < gv.len() && gv[w] == r[m];
                        assert(gv[w].1.image.wf());
                    }
                }
                return;
            }
            proof {
                assert(gv[k as int].0 == self.glyphs@[k as int].0);
            }
            k = k + 1;
        }
        proof {
            lemma_remove_absent(gv, chr);
        }
    }

    /// The default glyph for this font, used for characters that have no
    /// glyph of their own.
    pub fn default_glyph(&self) -> (g: &Glyph)
        ensures
            g@ == self@.default_glyph,
    {
        &self.default_glyph
    }

    /// Sets the default glyph for this font.  The new glyph's image must
    /// have the font's glyph height.
    pub fn set_default_glyph(&mut self, glyph: Glyph)
        requires
            old(self)@.wf(),
            glyph@.image.wf(),
            glyph@.image.height == old(self)@.glyph_height(),
        ensures
            final(self)@.wf(),
            final(self)@ == (FontView { default_glyph: glyph@, ..old(self)@ }),
    {
        self.default_glyph = glyph;
    }

    /// The characters that have glyphs in this font, in ascending order.
    pub fn chars(&self) -> (r: Vec<char>)
        ensures
            r@.len() == self@.glyphs.len(),
            forall|k: int| 0 <= k < r@.len() ==> r@[k] == (#[trigger] self@.glyphs[k]).0,
    {
        let mut r: Vec<char> = Vec::new();
        let mut k: usize = 0;
        while k < self.glyphs.len()
            invariant
                k <= self.glyphs@.len(),
                r@.len() == k,
                self@.glyphs.len() == self.glyphs@.len(),
                forall|m: int| 0 <= m < k ==> r@[m] == (#[trigger] self@.glyphs[m]).0,
            decreases self.glyphs@.len() - k,
        {
            r.push(self.glyphs[k].0);
            proof {
                assert(self@.glyphs[k as int].0 == self.glyphs@[k as int].0);
            }
            k = k + 1;
        }
        r
    }
}

/// An inserted entry that is not from the old table is the new entry.
proof fn lemma_insert_member(gs: Seq<(char, GlyphView)>, c: char, g: GlyphView, m: int)
    requires
        0 <= m < spec_insert_glyph(gs, c, g).len(),
        !gs.contains(spec_insert_glyph(gs, c, g)[m]),
    ensures
        spec_insert_glyph(gs, c, g)[m] == (c, g),
    decreases gs.len(),
{
    let r = spec_insert_glyph(gs, c, g);
    if gs.len() == 0 {
        assert(r[0] == (c, g));
    } else if (c as u32) < (gs[0].0 as u32) {
        if m > 0 {
            assert(r[m] == gs[m - 1]);
            assert(gs.contains(r[m]));
        } else {
            assert(r[0] == (c, g));
        }
    } else if c as u32 == gs[0].0 as u32 {
        if m > 0 {
            assert(r[m] == gs[m]);
            assert(gs.contains(r[m]));
        } else {
            assert(r[0] == (c, g));
        }
    } else {
        if m == 0 {
            assert(r[0] == gs[0]);
            assert(gs.contains(r[0]));
        } else {
            let tl = gs.drop_first();
            assert(r[m] == spec_insert_glyph(tl, c, g)[m - 1]);
            if tl.contains(r[m]) {
                let w = choose|w: int| 0 <= w < tl.len() && tl[w] == r[m];
                assert(gs[w + 1] == r[m]);
                assert(gs.contains(r[m]));
            } else {
                lemma_insert_member(tl, c, g, m - 1);
            }
        }
    }
}

// ===================================================================== //
//  The AHF text form                                                    //
// ===================================================================== //

/// One glyph: its subheader line `w<width> l<left> r<right>`, then its grid.
pub open spec fn parse_font_glyph(s: Seq<u8>, i: int, height: int) -> Result<
    (GlyphView, int),
    Error,
> {
    match parse_byte(s, i, LW) {
        Ok(j0) => match parse_header_uint(s, j0, SP) {
            Ok((w, j1)) => match parse_byte(s, j1, LL) {
                Ok(j2) => match parse_header_int(s, j2, SP) {
                    Ok((left, j3)) => match parse_byte(s, j3, LR) {
                        Ok(j4) => match parse_header_int(s, j4, NL) {
                            Ok((right, j5)) => match parse_grid(s, j5, w, height,
                                Seq::<Color>::empty()) {
                                Ok((pixels, j6)) => Ok((
                                    GlyphView {
                                        image: ImageView {
                                            tag: Seq::<char>::empty(),
                                            metadata: Seq::<i16>::empty(),
                                            width: w,
                                            height: height,
                                            pixels,
                                        },
                                        left,
                                        right,
                                    },
                                    j6,
                                )),
                                Err(e) => Err(e),
                            },
                            Err(e) => Err(e),
                        },
                        Err(e) => Err(e),
                    },
                    Err(e) => Err(e),
                },
                Err(e) => Err(e),
            },
            Err(e) => Err(e),
        },
        Err(e) => Err(e),
    }
}

/// `n` keyed glyph blocks, inserted into the table in file order.
pub open spec fn parse_font_glyphs(
    s: Seq<u8>,
    i: int,
    n: int,
    height: int,
    acc: Seq<(char, GlyphView)>,
) -> Result<(Seq<(char, GlyphView)>, int), Error>
    decreases n,
{
    if n <= 0 {
        Ok((acc, i))
    } else {
        match parse_byte(s, i, NL) {
            Ok(j0) => match parse_quoted_char(s, j0) {
                Ok((c, j1)) => match parse_byte(s, j1, SP) {
                    Ok(j2) => match parse_font_glyph(s, j2, height) {
                        Ok((g, j3)) => parse_font_glyphs(s, j3, n - 1, height,
                            spec_insert_glyph(acc, c, g)),
                        Err(e) => Err(e),
                    },
                    Err(e) => Err(e),
                },
                Err(e) => Err(e),
            },
            Err(e) => Err(e),
        }
    }
}

/// A whole font document.
pub open spec fn parse_font(s: Seq<u8>) -> Result<(FontView, int), Error> {
    match parse_byte(s, 0, LA) {
        Ok(i1) => match parse_byte(s, i1, LH) {
            Ok(i2) => match parse_byte(s, i2, LF) {
                Ok(i3) => match parse_header_uint(s, i3, SP) {
                    Ok((version, i4)) => if version != 0 {
                        Err(Error::UnsupportedVersion(version as u32))
                    } else {
                        parse_font_body(s, i4)
                    },
                    Err(e) => Err(e),
                },
                Err(e) => Err(e),
            },
            Err(e) => Err(e),
        },
        Err(e) => Err(e),
    }
}

/// The font body after the version: height, baseline and count, the default
/// glyph introduced by `def `, then the keyed glyphs.
pub open spec fn parse_font_body(s: Seq<u8>, i: int) -> Result<(FontView, int), Error> {
    match parse_byte(s, i, LH) {
        Ok(j0) => match parse_header_uint(s, j0, SP) {
            Ok((height, j1)) => match parse_byte(s, j1, LB) {
                Ok(j2) => match parse_header_int(s, j2, SP) {
                    Ok((baseline, j3)) => match parse_byte(s, j3, LN) {
                        Ok(j4) => match parse_header_uint(s, j4, NL) {
                            Ok((n, j5)) => match parse_byte(s, j5, NL) {
                                Ok(j6) => match parse_byte(s, j6, LD) {
                                    Ok(j7) => match parse_byte(s, j7, LE) {
                                        Ok(j8) => match parse_byte(s, j8, LF) {
                                            Ok(j9) => match parse_byte(s, j9, SP) {
                                                Ok(j10) => match parse_font_glyph(s, j10,
                                                    height) {
                                                    Ok((dg, j11)) => match parse_font_glyphs(
                                                        s, j11, n, height,
                                                        Seq::<(char, GlyphView)>::empty()) {
                                                        Ok((gs, j12)) => Ok((
                                                            FontView {
                                                                glyphs: gs,
                                                                default_glyph: dg,
                                                                baseline,
                                                            },
                                                            j12,
                                                        )),
                                                        Err(e) => Err(e),
                                                    },
                                                    Err(e) => Err(e),
                                                },
                                                Err(e) => Err(e),
                                            },
                                            Err(e) => Err(e),
                                        },
                                        Err(e) => Err(e),
                                    },
                                    Err(e) => Err(e),
                                },
                                Err(e) => Err(e),
                            },
                            Err(e) => Err(e),
                        },
                        Err(e) => Err(e),
                    },
                    Err(e) => Err(e),
                },
                Err(e) => Err(e),
            },
            Err(e) => Err(e),
        },
        Err(e) => Err(e),
    }
}

/// The value a font document decodes to, disregarding how many bytes it
/// took.
pub open spec fn decode_font(s: Seq<u8>) -> Result<FontView, Error> {
    match parse_font(s) {
        Ok((f, _)) => Ok(f),
        Err(e) => Err(e),
    }
}

/// The printed subheader and grid of one glyph.
pub open spec fn enc_font_glyph(g: GlyphView) -> Seq<u8> {
    seq![LW] + dec_digits(g.image.width) + seq![SP, LL] + enc_dec_int(g.left)
        + seq![SP, LR] + enc_dec_int(g.right) + seq![NL]
        + enc_grid(g.image.pixels, g.image.width, g.image.height)
}

/// The printed keyed glyph blocks from `k` on, in table order.
pub open spec fn enc_font_glyphs(gs: Seq<(char, GlyphView)>, k: int) -> Seq<u8>
    decreases gs.len() - k,
{
    if k < 0 || k >= gs.len() {
        Seq::<u8>::empty()
    } else {
        seq![NL] + enc_quoted_char(gs[k].0) + seq![SP] + enc_font_glyph(gs[k].1)
            + enc_font_glyphs(gs, k + 1)
    }
}

/// The printed form of a whole font document.
pub open spec fn enc_font(f: FontView) -> Seq<u8> {
    seq![LA, LH, LF, D0, SP, LH] + dec_digits(f.glyph_height()) + seq![SP, LB]
        + enc_dec_int(f.baseline) + seq![SP, LN] + dec_digits(f.glyphs.len() as int)
        + seq![NL, NL, LD, LE, LF, SP] + enc_font_glyph(f.default_glyph)
        + enc_font_glyphs(f.glyphs, 0)
}

/// Reads one glyph's subheader and grid.
fn read_font_glyph(data: &[u8], pos: usize, height: u32) -> (r: Result<(Glyph, usize), Error>)
    requires
        pos <= data@.len(),
    ensures
        match r {
            Ok((g, j)) => parse_font_glyph(data@, pos as int, height as int)
                == Ok::<(GlyphView, int), Error>((g@, j as int))
                && g@.image.wf()
                && g@.image.height == height as int
                && pos <= j <= data@.len(),
            Err(e) => parse_font_glyph(data@, pos as int, height as int)
                == Err::<(GlyphView, int), Error>(e),
        },
{
    let j0 = match read_exact_byte(data, pos, LW) {
        Ok(j) => j,
        Err(e) => return Err(e),
    };
    let (w, j1) = match read_header_uint(data, j0, SP) {
        Ok(p) => p,
        Err(e) => return Err(e),
    };
    let j2 = match read_exact_byte(data, j1, LL) {
        Ok(j) => j,
        Err(e) => return Err(e),
    };
    let (left, j3) = match read_header_int(data, j2, SP) {
        Ok(p) => p,
        Err(e) => return Err(e),
    };
    let j4 = match read_exact_byte(data, j3, LR) {
        Ok(j) => j,
        Err(e) => return Err(e),
    };
    let (right, j5) = match read_header_int(data, j4, NL) {
        Ok(p) => p,
        Err(e) => return Err(e),
    };
    let (img, j6) = match Image::read(data, j5, w, height) {
        Ok(p) => p,
        Err(e) => return Err(e),
    };
    let g = Glyph::new(img, left, right);
    proof {
        assert(g@ =~= (GlyphView {
            image: ImageView {
                tag: Seq::<char>::empty(),
                metadata: Seq::<i16>::empty(),
                width: w as int,
                height: height as int,
                pixels: img@.pixels,
            },
            left: left as int,
            right: right as int,
        }));
    }
    Ok((g, j6))
}

/// Appends one glyph's subheader and grid.
fn write_font_glyph(out: &mut Vec<u8>, g: &Glyph)
    requires
        g@.image.wf(),
    ensures
        final(out)@ == old(out)@ + enc_font_glyph(g@),
{
    out.push(LW);
    proof {
        assert(out@ =~= old(out)@ + seq![LW]);
    }
    write_dec_u32(out, g.image().width());
    out.push(SP);
    out.push(LL);
    proof {
        assert(out@ =~= old(out)@ + seq![LW] + dec_digits(g@.image.width) + seq![SP, LL]);
    }
    write_dec_i32(out, g.left_edge());
    out.push(SP);
    out.push(LR);
    proof {
        assert(out@ =~= old(out)@ + seq![LW] + dec_digits(g@.image.width) + seq![SP, LL]
            + enc_dec_int(g@.left) + seq![SP, LR]);
    }
    write_dec_i32(out, g.right_edge());
    out.push(NL);
    proof {
        assert(out@ =~= old(out)@ + seq![LW] + dec_digits(g@.image.width) + seq![SP, LL]
            + enc_dec_int(g@.left) + seq![SP, LR] + enc_dec_int(g@.right) + seq![NL]);
    }
    g.image().write(out);
    proof {
        assert(out@ =~= old(out)@ + enc_font_glyph(g@));
    }
}

/// Appends the keyed glyph blocks from `k` on.
fn write_font_glyphs(out: &mut Vec<u8>, gs: &Vec<(char, Glyph)>, k: usize)
    requires
        k <= gs@.len(),
        forall|m: int| 0 <= m < gs@.len() ==> (#[trigger] gs@[m]).1@.image.wf(),
    ensures
        final(out)@ == old(out)@
            + enc_font_glyphs(gs@.map_values(|e: (char, Glyph)| (e.0, e.1@)), k as int),
    decreases gs@.len() - k,
{
    let ghost gv = gs@.map_values(|e: (char, Glyph)| (e.0, e.1@));
    if k == gs.len() {
        proof {
            assert(out@ =~= old(out)@ + enc_font_glyphs(gv, k as int));
        }
        return;
    }
    out.push(NL);
    write_quoted_char(out, gs[k].0);
    out.push(SP);
    proof {
        assert(gv[k as int] == (gs@[k as int].0, gs@[k as int].1@));
        assert(out@ =~= old(out)@ + seq![NL] + enc_quoted_char(gv[k as int].0) + seq![SP]);
    }
    write_font_glyph(out, &gs[k].1);
    write_font_glyphs(out, gs, k + 1);
    proof {
        assert(out@ =~= old(out)@ + enc_font_glyphs(gv, k as int));
    }
}

impl Font {
    /// Reads a font from the AHF text form.  Trailing bytes after the
    /// document are ignored, as the grammar says where it ends.
    pub fn read(data: &[u8]) -> (r: Result<Font, Error>)
        ensures
            match r {
                Ok(f) => decode_font(data@) == Ok::<FontView, Error>(f@) && f@.wf(),
                Err(e) => decode_font(data@) == Err::<FontView, Error>(e),
            },
    {
        let i1 = match read_exact_byte(data, 0, LA) {
            Ok(j) => j,
            Err(e) => return Err(e),
        };
        let i2 = match read_exact_byte(data, i1, LH) {
            Ok(j) => j,
            Err(e) => return Err(e),
        };
        let i3 = match read_exact_byte(data, i2, LF) {
            Ok(j) => j,
            Err(e) => return Err(e),
        };
        let (version, i4) = match read_header_uint(data, i3, SP) {
            Ok(p) => p,
            Err(e) => return Err(e),
        };
        if version != 0 {
            return Err(Error::UnsupportedVersion(version));
        }
        let j0 = match read_exact_byte(data, i4, LH) {
            Ok(j) => j,
            Err(e) => return Err(e),
        };
        let (height, j1) = match read_header_uint(data, j0, SP) {
            Ok(p) => p,
            Err(e) => return Err(e),
        };
        let j2 = match read_exact_byte(data, j1, LB) {
            Ok(j) => j,
            Err(e) => return Err(e),
        };
        let (baseline, j3) = match read_header_int(data, j2, SP) {
            Ok(p) => p,
            Err(e) => return Err(e),
        };
        let j4 = match read_exact_byte(data, j3, LN) {
            Ok(j) => j,
            Err(e) => return Err(e),
        };
        let (n, j5) = match read_header_uint(data, j4, NL) {
            Ok(p) => p,
            Err(e) => return Err(e),
        };
        let j6 = match read_exact_byte(data, j5, NL) {
            Ok(j) => j,
            Err(e) => return Err(e),
        };
        let j7 = match read_exact_byte(data, j6, LD) {
            Ok(j) => j,
            Err(e) => return Err(e),
        };
        let j8 = match read_exact_byte(data, j7, LE) {
            Ok(j) => j,
            Err(e) => return Err(e),
        };
        let j9 = match read_exact_byte(data, j8, LF) {
            Ok(j) => j,
            Err(e) => return Err(e),
        };
        let j10 = match read_exact_byte(data, j9, SP) {
            Ok(j) => j,
            Err(e) => return Err(e),
        };
        let (dg, j11) = match read_font_glyph(data, j10, height) {
            Ok(p) => p,
            Err(e) => return Err(e),
        };
        let mut font = Font { glyphs: Vec::new(), default_glyph: dg, baseline };
        proof {
            assert(font@.glyphs =~= Seq::<(char, GlyphView)>::empty());
        }
        let ghost whole = parse_font(data@);
        proof {
            assert(whole == (match parse_font_glyphs(data@, j11 as int, n as int,
                height as int, Seq::<(char, GlyphView)>::empty()) {
                Ok((gs, j)) => Ok::<(FontView, int), Error>((
                    FontView { glyphs: gs, default_glyph: dg@, baseline: baseline as int },
                    j,
                )),
                Err(e) => Err::<(FontView, int), Error>(e),
            }));
        }
        let mut k: u32 = 0;
        let mut i = j11;
        while k < n
            invariant
                k <= n,
                i <= data@.len(),
                font@.wf(),
                font@.default_glyph == dg@,
                font@.baseline == baseline as int,
                font@.glyph_height() == height as int,
                whole == parse_font(data@),
                whole == (match parse_font_glyphs(data@, j11 as int, n as int,
                    height as int, Seq::<(char, GlyphView)>::empty()) {
                    Ok((gs, j)) => Ok::<(FontView, int), Error>((
                        FontView {
                            glyphs: gs,
                            default_glyph: dg@,
                            baseline: baseline as int,
                        },
                        j,
                    )),
                    Err(e) => Err::<(FontView, int), Error>(e),
                }),
                parse_font_glyphs(data@, j11 as int, n as int, height as int,
                    Seq::<(char, GlyphView)>::empty())
                    == parse_font_glyphs(data@, i as int, (n - k) as int, height as int,
                        font@.glyphs),
            decreases n - k,
        {
            let ja = match read_exact_byte(data, i, NL) {
                Ok(j) => j,
                Err(e) => return Err(e),
            };
            let (c, jb) = match read_quoted_char(data, ja) {
                Ok(p) => p,
                Err(e) => return Err(e),
            };
            let jc = match read_exact_byte(data, jb, SP) {
                Ok(j) => j,
                Err(e) => return Err(e),
            };
            let (g, jd) = match read_font_glyph(data, jc, height) {
                Ok(p) => p,
                Err(e) => return Err(e),
            };
            font.set_char_glyph(c, g);
            i = jd;
            k = k + 1;
        }
        proof {
            assert(parse_font_glyphs(data@, i as int, 0, height as int, font@.glyphs)
                == Ok::<(Seq<(char, GlyphView)>, int), Error>((font@.glyphs, i as int)));
            assert(font@ =~= (FontView {
                glyphs: font@.glyphs,
                default_glyph: dg@,
                baseline: baseline as int,
            }));
        }
        Ok(font)
    }

    /// Writes the font in its AHF text form.  Writing a byte vector cannot
    /// fail.
    pub fn write(&self, out: &mut Vec<u8>) -> (r: Result<(), Error>)
        requires
            self@.wf(),
        ensures
            r == Ok::<(), Error>(()),
            final(out)@ == old(out)@ + enc_font(self@),
    {
        proof {
            assert forall|m: int| 0 <= m < self.glyphs@.len()
                implies (#[trigger] self.glyphs@[m]).1@.image.wf() by {
                assert(self@.glyphs[m] == (self.glyphs@[m].0, self.glyphs@[m].1@));
            }
        }
        out.push(LA);
        out.push(LH);
        out.push(LF);
        out.push(D0);
        out.push(SP);
        out.push(LH);
        proof {
            assert(out@ =~= old(out)@ + seq![LA, LH, LF, D0, SP, LH]);
        }
        write_dec_u32(out, self.glyph_height());
        out.push(SP);
        out.push(LB);
        proof {
            assert(out@ =~= old(out)@ + seq![LA, LH, LF, D0, SP, LH]
                + dec_digits(self@.glyph_height()) + seq![SP, LB]);
        }
        write_dec_i32(out, self.baseline);
        out.push(SP);
        out.push(LN);
        proof {
            assert(out@ =~= old(out)@ + seq![LA, LH, LF, D0, SP, LH]
                + dec_digits(self@.glyph_height()) + seq![SP, LB]
                + enc_dec_int(self@.baseline) + seq![SP, LN]);
        }
        write_dec_len_font(out, self.glyphs.len());
        out.push(NL);
        out.push(NL);
        out.push(LD);
        out.push(LE);
        out.push(LF);
        out.push(SP);
        proof {
            assert(out@ =~= old(out)@ + seq![LA, LH, LF, D0, SP, LH]
                + dec_digits(self@.glyph_height()) + seq![SP, LB]
                + enc_dec_int(self@.baseline) + seq![SP, LN]
                + dec_digits(self@.glyphs.len() as int) + seq![NL, NL, LD, LE, LF, SP]);
        }
        write_font_glyph(out, &self.default_glyph);
        write_font_glyphs(out, &self.glyphs, 0);
        proof {
            assert(out@ =~= old(out)@ + enc_font(self@));
        }
        Ok(())
    }
}

/// Appends the decimal digits of a count.
fn write_dec_len_font(out: &mut Vec<u8>, n: usize)
    ensures
        final(out)@ == old(out)@ + dec_digits(n as int),
{
    if n == 0 {
        out.push(D0);
        proof {
            assert(old(out)@.push(D0) =~= old(out)@ + dec_digits(0));
        }
        return;
    }
    let mut tmp: Vec<u8> = Vec::new();
    let mut m = n;
    while m > 0
        invariant
            dec_digits(n as int) == if m > 0 {
                dec_digits(m as int) + tmp@
            } else {
                tmp@
            },
        decreases m,
    {
        let d: u8 = (m % 10) as u8;
        proof {
            if m >= 10 {
                assert(dec_digits(m as int) + tmp@
                    =~= dec_digits(m as int / 10) + (seq![(D0 + m as int % 10) as u8] + tmp@));
            } else {
                assert(dec_digits(m as int) + tmp@ =~= seq![(D0 + m as int % 10) as u8] + tmp@);
            }
        }
        let ghost t0 = tmp@;
        tmp.insert(0, D0 + d);
        proof {
            assert(tmp@ =~= seq![(D0 + d) as u8] + t0);
        }
        m = m / 10;
    }
    let ghost pre = out@;
    out.append(&mut tmp);
    proof {
        assert(out@ =~= pre + dec_digits(n as int));
    }
}

} // verus!
