//! Sixteen-entry RGBA palettes and their variable-width hex encoding.
//!
//! A palette line holds sixteen fields, the first fifteen ended by `;` and
//! the last by a newline.  Each field is zero to eight hex digits, read by
//! digit count: nothing for fully transparent, gray and RGB shorthands that
//! repeat a digit (`C` means `CCCCCC`), and full forms with or without an
//! alpha part.  Writing always picks the shortest field that reproduces the
//! value exactly.

use vstd::prelude::*;
use crate::ascii::{D0, NL, SEMI, UA};
use crate::color::{color_index, Color};
use crate::error::Error;
use crate::token::{
    hex_upper_byte, hex_val, is_hex_byte, lemma_parse_hex_digits_run, lemma_subrange_index,
    lemma_subrange_split, parse_hex_digits, read_hex_digits,
};

verus! {

/// One palette entry: red, green, blue and alpha channels.
pub type Rgba = (u8, u8, u8, u8);

/// A sixteen-entry color palette, indexed by `Color`.
#[derive(Clone, Debug)]
pub struct Palette {
    rgba: Vec<Rgba>,
}

impl View for Palette {
    type V = Seq<Rgba>;

    closed spec fn view(&self) -> Seq<Rgba> {
        self.rgba@
    }
}

/// Whether an entry survives the shortest encoding: a fully transparent
/// entry must be the all-zero quadruple, since an empty field decodes to
/// black.  Every entry that the grammar can produce satisfies this.
pub open spec fn entry_canonical(c: Rgba) -> bool {
    c.3 == 0 ==> c.0 == 0 && c.1 == 0 && c.2 == 0
}

/// The digit values (below sixteen) of the shortest field for an entry.
pub open spec fn field_digits(c: Rgba) -> Seq<u8> {
    let (r, g, b, a) = c;
    if a == 0 {
        Seq::<u8>::empty()
    } else if a == 0xFF {
        if r == g && g == b {
            if r % 0x11 == 0 {
                seq![(r / 0x11) as u8]
            } else {
                seq![(r / 0x10) as u8, (r % 0x10) as u8]
            }
        } else if r % 0x11 == 0 && g % 0x11 == 0 && b % 0x11 == 0 {
            seq![(r / 0x11) as u8, (g / 0x11) as u8, (b / 0x11) as u8]
        } else {
            seq![
                (r / 0x10) as u8,
                (r % 0x10) as u8,
                (g / 0x10) as u8,
                (g % 0x10) as u8,
                (b / 0x10) as u8,
                (b % 0x10) as u8,
            ]
        }
    } else if a % 0x11 == 0 {
        if r % 0x11 == 0 && g % 0x11 == 0 && b % 0x11 == 0 {
            seq![(r / 0x11) as u8, (g / 0x11) as u8, (b / 0x11) as u8, (a / 0x11) as u8]
        } else {
            seq![
                (r / 0x10) as u8,
                (r % 0x10) as u8,
                (g / 0x10) as u8,
                (g % 0x10) as u8,
                (b / 0x10) as u8,
                (b % 0x10) as u8,
                (a / 0x11) as u8,
            ]
        }
    } else {
        if r % 0x11 == 0 && g % 0x11 == 0 && b % 0x11 == 0 {
            seq![
                (r / 0x11) as u8,
                (g / 0x11) as u8,
                (b / 0x11) as u8,
                (a / 0x10) as u8,
                (a % 0x10) as u8,
            ]
        } else {
            seq![
                (r / 0x10) as u8,
                (r % 0x10) as u8,
                (g / 0x10) as u8,
                (g % 0x10) as u8,
                (b / 0x10) as u8,
                (b % 0x10) as u8,
                (a / 0x10) as u8,
                (a % 0x10) as u8,
            ]
        }
    }
}

/// The entry a field of digit values denotes, read by digit count.
pub open spec fn field_value(ds: Seq<u8>) -> Result<Rgba, Error> {
    if ds.len() == 0 {
        Ok((0, 0, 0, 0))
    } else if ds.len() == 1 {
        let g = (ds[0] * 0x11) as u8;
        Ok((g, g, g, 255))
    } else if ds.len() == 2 {
        let g = (ds[0] * 0x10 + ds[1]) as u8;
        Ok((g, g, g, 255))
    } else if ds.len() == 3 {
        Ok(((ds[0] * 0x11) as u8, (ds[1] * 0x11) as u8, (ds[2] * 0x11) as u8, 255))
    } else if ds.len() == 4 {
        Ok((
            (ds[0] * 0x11) as u8,
            (ds[1] * 0x11) as u8,
            (ds[2] * 0x11) as u8,
            (ds[3] * 0x11) as u8,
        ))
    } else if ds.len() == 5 {
        Ok((
            (ds[0] * 0x11) as u8,
            (ds[1] * 0x11) as u8,
            (ds[2] * 0x11) as u8,
            (ds[3] * 0x10 + ds[4]) as u8,
        ))
    } else if ds.len() == 6 {
        Ok((
            (ds[0] * 0x10 + ds[1]) as u8,
            (ds[2] * 0x10 + ds[3]) as u8,
            (ds[4] * 0x10 + ds[5]) as u8,
            255,
        ))
    } else if ds.len() == 7 {
        Ok((
            (ds[0] * 0x10 + ds[1]) as u8,
            (ds[2] * 0x10 + ds[3]) as u8,
            (ds[4] * 0x10 + ds[5]) as u8,
            (ds[6] * 0x11) as u8,
        ))
    } else if ds.len() == 8 {
        Ok((
            (ds[0] * 0x10 + ds[1]) as u8,
            (ds[2] * 0x10 + ds[3]) as u8,
            (ds[4] * 0x10 + ds[5]) as u8,
            (ds[6] * 0x10 + ds[7]) as u8,
        ))
    } else {
        Err(Error::TooManyPaletteDigits)
    }
}

/// The terminator of the field at `idx`: a newline for the last, else `;`.
pub open spec fn field_term(idx: int) -> u8 {
    if idx == 15 {
        NL
    } else {
        SEMI
    }
}

/// The palette fields from `idx` on, each read as hex digits up to its
/// terminator and then by digit count.
pub open spec fn parse_palette_fields(s: Seq<u8>, i: int, idx: int, acc: Seq<Rgba>) -> Result<
    (Seq<Rgba>, int),
    Error,
>
    decreases 16 - idx,
{
    if idx >= 16 {
        Ok((acc, i))
    } else {
        match parse_hex_digits(s, i, field_term(idx), Seq::<u8>::empty()) {
            Ok((ds, j)) => match field_value(ds) {
                Ok(v) => parse_palette_fields(s, j, idx + 1, acc.push(v)),
                Err(e) => Err(e),
            },
            Err(e) => Err(e),
        }
    }
}

/// A whole palette line of sixteen fields.
pub open spec fn parse_palette(s: Seq<u8>, i: int) -> Result<(Seq<Rgba>, int), Error> {
    parse_palette_fields(s, i, 0, Seq::<Rgba>::empty())
}

/// The printed field for one entry: its digit values as uppercase hex bytes.
pub open spec fn enc_palette_field(c: Rgba) -> Seq<u8> {
    field_digits(c).map(|k: int, d: u8| hex_upper_byte(d as int))
}

/// The printed fields from `idx` on, each followed by its terminator.
pub open spec fn enc_palette_fields(p: Seq<Rgba>, idx: int) -> Seq<u8>
    decreases 16 - idx,
{
    if idx >= 16 {
        Seq::<u8>::empty()
    } else {
        enc_palette_field(p[idx]) + seq![field_term(idx)] + enc_palette_fields(p, idx + 1)
    }
}

/// The printed form of a whole palette line.
pub open spec fn enc_palette(p: Seq<Rgba>) -> Seq<u8> {
    enc_palette_fields(p, 0)
}

/// Turns a field's digit values into the entry they denote.
fn field_from_digits(ds: &Vec<u8>) -> (r: Result<Rgba, Error>)
    requires
        forall|k: int| 0 <= k < ds@.len() ==> ds@[k] < 16,
    ensures
        r == field_value(ds@),
{
    if ds.len() == 0 {
        Ok((0, 0, 0, 0))
    } else if ds.len() == 1 {
        let g = ds[0] * 0x11;
        Ok((g, g, g, 255))
    } else if ds.len() == 2 {
        let g = ds[0] * 0x10 + ds[1];
        Ok((g, g, g, 255))
    } else if ds.len() == 3 {
        Ok((ds[0] * 0x11, ds[1] * 0x11, ds[2] * 0x11, 255))
    } else if ds.len() == 4 {
        Ok((ds[0] * 0x11, ds[1] * 0x11, ds[2] * 0x11, ds[3] * 0x11))
    } else if ds.len() == 5 {
        Ok((ds[0] * 0x11, ds[1] * 0x11, ds[2] * 0x11, ds[3] * 0x10 + ds[4]))
    } else if ds.len() == 6 {
        Ok((ds[0] * 0x10 + ds[1], ds[2] * 0x10 + ds[3], ds[4] * 0x10 + ds[5], 255))
    } else if ds.len() == 7 {
        Ok((ds[0] * 0x10 + ds[1], ds[2] * 0x10 + ds[3], ds[4] * 0x10 + ds[5], ds[6] * 0x11))
    } else if ds.len() == 8 {
        Ok((
            ds[0] * 0x10 + ds[1],
            ds[2] * 0x10 + ds[3],
            ds[4] * 0x10 + ds[5],
            ds[6] * 0x10 + ds[7],
        ))
    } else {
        Err(Error::TooManyPaletteDigits)
    }
}

impl Palette {
    /// Whether this palette holds its sixteen entries.
    pub open spec fn wf(&self) -> bool {
        self@.len() == 16
    }

    /// Builds a palette from sixteen RGBA entries.
    pub fn new(rgba: [Rgba; 16]) -> (p: Palette)
        ensures
            p@ == rgba@,
            p.wf(),
    {
        let mut v: Vec<Rgba> = Vec::new();
        let mut k: usize = 0;
        while k < 16
            invariant
                k <= 16,
                v@ =~= rgba@.subrange(0, k as int),
            decreases 16 - k,
        {
            v.push(rgba[k]);
            k = k + 1;
        }
        proof {
            assert(rgba@.subrange(0, 16) =~= rgba@);
        }
        Palette { rgba: v }
    }

    /// The default palette: slot 0 transparent, then black and the
    /// half-brightness and full-brightness primaries, ending in white.
    pub fn default() -> (p: Palette)
        ensures
            p.wf(),
            p@ == default_palette(),
    {
        let p = Palette::new([
            (0, 0, 0, 0),
            (0, 0, 0, 255),
            (127, 0, 0, 255),
            (255, 0, 0, 255),
            (0, 127, 0, 255),
            (0, 255, 0, 255),
            (127, 127, 0, 255),
            (255, 255, 0, 255),
            (0, 0, 127, 255),
            (0, 0, 255, 255),
            (127, 0, 127, 255),
            (255, 0, 255, 255),
            (0, 127, 127, 255),
            (0, 255, 255, 255),
            (127, 127, 127, 255),
            (255, 255, 255, 255),
        ]);
        proof {
            assert(p@ =~= default_palette());
        }
        p
    }

    /// This palette's entry for the given color slot.
    pub fn get(&self, color: Color) -> (c: Rgba)
        requires
            self.wf(),
        ensures
            c == self@[color_index(color)],
    {
        let idx = color.index();
        self.rgba[idx]
    }

    /// Replaces this palette's entry for the given color slot.
    pub fn set(&mut self, color: Color, rgba: Rgba)
        requires
            old(self).wf(),
        ensures
            final(self).wf(),
            final(self)@ == old(self)@.update(color_index(color), rgba),
    {
        let idx = color.index();
        self.rgba[idx] = rgba;
    }

    /// Reads one palette line.  Succeeds exactly when each of the sixteen
    /// fields is at most eight hex digits before its terminator.
    pub fn read(data: &[u8], pos: usize) -> (r: Result<(Palette, usize), Error>)
        requires
            pos <= data@.len(),
        ensures
            match r {
                Ok((p, j)) => parse_palette(data@, pos as int)
                    == Ok::<(Seq<Rgba>, int), Error>((p@, j as int))
                    && p.wf()
                    && pos <= j <= data@.len(),
                Err(e) => parse_palette(data@, pos as int) == Err::<(Seq<Rgba>, int), Error>(e),
            },
    {
        let mut acc: Vec<Rgba> = Vec::new();
        let mut idx: usize = 0;
        let mut i = pos;
        while idx < 16
            invariant
                idx <= 16,
                acc@.len() == idx,
                pos <= i <= data@.len(),
                parse_palette(data@, pos as int)
                    == parse_palette_fields(data@, i as int, idx as int, acc@),
            decreases 16 - idx,
        {
            let term = if idx == 15 {
                NL
            } else {
                SEMI
            };
            let (ds, j) = match read_hex_digits(data, i, term) {
                Ok(p) => p,
                Err(e) => return Err(e),
            };
            let v = match field_from_digits(&ds) {
                Ok(v) => v,
                Err(e) => return Err(e),
            };
            acc.push(v);
            i = j;
            idx = idx + 1;
        }
        Ok((Palette { rgba: acc }, i))
    }

    /// Appends this palette's line: sixteen shortest fields, `;`-separated,
    /// ended by a newline.
    pub fn write(&self, out: &mut Vec<u8>)
        requires
            self.wf(),
        ensures
            final(out)@ == old(out)@ + enc_palette(self@),
    {
        write_palette_fields(out, &self.rgba, 0);
    }
}

/// The entries of the built-in default palette.
pub open spec fn default_palette() -> Seq<Rgba> {
    seq![
        (0u8, 0u8, 0u8, 0u8),
        (0u8, 0u8, 0u8, 255u8),
        (127u8, 0u8, 0u8, 255u8),
        (255u8, 0u8, 0u8, 255u8),
        (0u8, 127u8, 0u8, 255u8),
        (0u8, 255u8, 0u8, 255u8),
        (127u8, 127u8, 0u8, 255u8),
        (255u8, 255u8, 0u8, 255u8),
        (0u8, 0u8, 127u8, 255u8),
        (0u8, 0u8, 255u8, 255u8),
        (127u8, 0u8, 127u8, 255u8),
        (255u8, 0u8, 255u8, 255u8),
        (0u8, 127u8, 127u8, 255u8),
        (0u8, 255u8, 255u8, 255u8),
        (127u8, 127u8, 127u8, 255u8),
        (255u8, 255u8, 255u8, 255u8),
    ]
}

/// Appends one uppercase hex digit byte.
fn push_hex_digit(out: &mut Vec<u8>, d: u8)
    requires
        d < 16,
    ensures
        final(out)@ == old(out)@.push(hex_upper_byte(d as int)),
{
    if d < 10 {
        out.push(D0 + d);
    } else {
        out.push(UA + (d - 10));
    }
}

/// Appends the shortest field for one entry.
fn write_palette_field(out: &mut Vec<u8>, c: Rgba)
    ensures
        final(out)@ == old(out)@ + enc_palette_field(c),
{
    let (r, g, b, a) = c;
    let ghost ds = field_digits(c);
    if a == 0 {
    } else if a == 0xFF {
        if r == g && g == b {
            if r % 0x11 == 0 {
                push_hex_digit(out, r / 0x11);
            } else {
                push_hex_digit(out, r / 0x10);
                push_hex_digit(out, r % 0x10);
            }
        } else if r % 0x11 == 0 && g % 0x11 == 0 && b % 0x11 == 0 {
            push_hex_digit(out, r / 0x11);
            push_hex_digit(out, g / 0x11);
            push_hex_digit(out, b / 0x11);
        } else {
            push_hex_digit(out, r / 0x10);
            push_hex_digit(out, r % 0x10);
            push_hex_digit(out, g / 0x10);
            push_hex_digit(out, g % 0x10);
            push_hex_digit(out, b / 0x10);
            push_hex_digit(out, b % 0x10);
        }
    } else if a % 0x11 == 0 {
        if r % 0x11 == 0 && g % 0x11 == 0 && b % 0x11 == 0 {
            push_hex_digit(out, r / 0x11);
            push_hex_digit(out, g / 0x11);
            push_hex_digit(out, b / 0x11);
            push_hex_digit(out, a / 0x11);
        } else {
            push_hex_digit(out, r / 0x10);
            push_hex_digit(out, r % 0x10);
            push_hex_digit(out, g / 0x10);
            push_hex_digit(out, g % 0x10);
            push_hex_digit(out, b / 0x10);
            push_hex_digit(out, b % 0x10);
            push_hex_digit(out, a / 0x11);
        }
    } else {
        if r % 0x11 == 0 && g % 0x11 == 0 && b % 0x11 == 0 {
            push_hex_digit(out, r / 0x11);
            push_hex_digit(out, g / 0x11);
            push_hex_digit(out, b / 0x11);
            push_hex_digit(out, a / 0x10);
            push_hex_digit(out, a % 0x10);
        } else {
            push_hex_digit(out, r / 0x10);
            push_hex_digit(out, r % 0x10);
            push_hex_digit(out, g / 0x10);
            push_hex_digit(out, g % 0x10);
            push_hex_digit(out, b / 0x10);
            push_hex_digit(out, b % 0x10);
            push_hex_digit(out, a / 0x10);
            push_hex_digit(out, a % 0x10);
        }
    }
    proof {
        assert(final(out)@ =~= old(out)@ + enc_palette_field(c));
    }
}

/// Appends the fields from `idx` on, each followed by its terminator.
fn write_palette_fields(out: &mut Vec<u8>, p: &Vec<Rgba>, idx: usize)
    requires
        p@.len() == 16,
        idx <= 16,
    ensures
        final(out)@ == old(out)@ + enc_palette_fields(p@, idx as int),
    decreases 16 - idx,
{
    if idx == 16 {
        proof {
            assert(final(out)@ =~= old(out)@ + enc_palette_fields(p@, 16));
        }
        return;
    }
    write_palette_field(out, p[idx]);
    if idx == 15 {
        out.push(NL);
    } else {
        out.push(SEMI);
    }
    write_palette_fields(out, p, idx + 1);
    proof {
        assert(final(out)@ =~= old(out)@ + enc_palette_fields(p@, idx as int));
    }
}

// ===================================================================== //
//  Round trips and shortest-form law                                    //
// ===================================================================== //

/// Every digit value of a shortest field is below sixteen.
pub proof fn lemma_field_digits_bounds(c: Rgba)
    ensures
        field_digits(c).len() <= 8,
        forall|k: int| 0 <= k < field_digits(c).len() ==> #[trigger] field_digits(c)[k] < 16,
{
    let ds = field_digits(c);
    assert forall|k: int| 0 <= k < ds.len() implies #[trigger] ds[k] < 16 by {
        assert(c.0 / 0x11 < 16 && c.0 / 0x10 < 16 && c.0 % 0x10 < 16);
        assert(c.1 / 0x11 < 16 && c.1 / 0x10 < 16 && c.1 % 0x10 < 16);
        assert(c.2 / 0x11 < 16 && c.2 / 0x10 < 16 && c.2 % 0x10 < 16);
        assert(c.3 / 0x11 < 16 && c.3 / 0x10 < 16 && c.3 % 0x10 < 16);
    }
}

/// Parsing the printed field of an entry, followed by its terminator,
/// yields exactly the entry's digit values.
pub proof fn lemma_parse_field_of_enc(s: Seq<u8>, i: int, c: Rgba, term: u8)
    requires
        0 <= i,
        i + enc_palette_field(c).len() < s.len(),
        s.subrange(i, i + enc_palette_field(c).len()) == enc_palette_field(c),
        s[i + enc_palette_field(c).len()] == term,
        !is_hex_byte(term),
    ensures
        parse_hex_digits(s, i, term, Seq::<u8>::empty())
            == Ok::<(Seq<u8>, int), Error>((
                field_digits(c),
                i + enc_palette_field(c).len() + 1,
            )),
{
    let ds = field_digits(c);
    let e = enc_palette_field(c);
    lemma_field_digits_bounds(c);
    assert(e.len() == ds.len());
    assert forall|k: int| 0 <= k < ds.len()
        implies is_hex_byte(#[trigger] s[i + k]) && hex_val(s[i + k]) == ds[k] by {
        lemma_subrange_index(s, i, e, k);
        assert(e[k] == hex_upper_byte(ds[k] as int));
        assert(ds[k] < 16);
    }
    lemma_parse_hex_digits_run(s, i, term, Seq::<u8>::empty(), ds);
    assert(Seq::<u8>::empty() + ds =~= ds);
}

/// Reading back the shortest field of a canonical entry gives the entry.
pub proof fn lemma_field_value_of_digits(c: Rgba)
    requires
        entry_canonical(c),
    ensures
        field_value(field_digits(c)) == Ok::<Rgba, Error>(c),
{
    let (r, g, b, a) = c;
    if a != 0 {
        assert(r == 0x11 * (r / 0x11) + r % 0x11);
        assert(r == 0x10 * (r / 0x10) + r % 0x10);
        assert(g == 0x11 * (g / 0x11) + g % 0x11);
        assert(g == 0x10 * (g / 0x10) + g % 0x10);
        assert(b == 0x11 * (b / 0x11) + b % 0x11);
        assert(b == 0x10 * (b / 0x10) + b % 0x10);
        assert(a == 0x11 * (a / 0x11) + a % 0x11);
        assert(a == 0x10 * (a / 0x10) + a % 0x10);
    }
}

/// No shorter field than the one written decodes to the same canonical
/// entry.
pub proof fn lemma_field_minimal(c: Rgba, ds: Seq<u8>)
    requires
        entry_canonical(c),
        forall|k: int| 0 <= k < ds.len() ==> #[trigger] ds[k] < 16,
        field_value(ds) == Ok::<Rgba, Error>(c),
    ensures
        field_digits(c).len() <= ds.len(),
{
    let (r, g, b, a) = c;
    let n = ds.len() as int;
    if n > 8 {
        assert(field_value(ds) == Err::<Rgba, Error>(Error::TooManyPaletteDigits));
    } else if n == 0 {
        assert(a == 0);
    } else if n == 1 {
        assert(r == ds[0] * 0x11 && g == r && b == r && a == 255);
        assert(r % 0x11 == 0);
    } else if n == 2 {
        assert(r == ds[0] * 0x10 + ds[1] && g == r && b == r && a == 255);
    } else if n == 3 {
        assert(r == ds[0] * 0x11 && g == ds[1] * 0x11 && b == ds[2] * 0x11 && a == 255);
        assert(r % 0x11 == 0 && g % 0x11 == 0 && b % 0x11 == 0);
    } else if n == 4 {
        assert(r == ds[0] * 0x11 && g == ds[1] * 0x11 && b == ds[2] * 0x11 && a == ds[3] * 0x11);
        assert(r % 0x11 == 0 && g % 0x11 == 0 && b % 0x11 == 0 && a % 0x11 == 0);
    } else if n == 5 {
        assert(r == ds[0] * 0x11 && g == ds[1] * 0x11 && b == ds[2] * 0x11);
        assert(r % 0x11 == 0 && g % 0x11 == 0 && b % 0x11 == 0);
    } else if n == 6 {
        assert(a == 255);
    } else if n == 7 {
        assert(a == ds[6] * 0x11);
        assert(a % 0x11 == 0);
    }
}

/// The palette shortest-encoding law: for every entry the grammar can
/// produce, decoding the written field gives the entry back, and no field
/// with fewer digits decodes to it.
pub proof fn lemma_palette_field_round_trip(c: Rgba)
    requires
        entry_canonical(c),
    ensures
        field_value(field_digits(c)) == Ok::<Rgba, Error>(c),
        forall|ds: Seq<u8>|
            (forall|k: int| 0 <= k < ds.len() ==> #[trigger] ds[k] < 16)
                && #[trigger] field_value(ds) == Ok::<Rgba, Error>(c)
            ==> field_digits(c).len() <= ds.len(),
{
    lemma_field_value_of_digits(c);
    assert forall|ds: Seq<u8>|
        (forall|k: int| 0 <= k < ds.len() ==> #[trigger] ds[k] < 16)
            && #[trigger] field_value(ds) == Ok::<Rgba, Error>(c)
        implies field_digits(c).len() <= ds.len() by {
        lemma_field_minimal(c, ds);
    }
}

/// Parsing the printed fields from `idx` on appends the palette's entries
/// from `idx` on to the accumulator.
pub proof fn lemma_parse_palette_fields_of_enc(
    s: Seq<u8>,
    i: int,
    p: Seq<Rgba>,
    idx: int,
    acc: Seq<Rgba>,
)
    requires
        p.len() == 16,
        forall|k: int| 0 <= k < 16 ==> entry_canonical(#[trigger] p[k]),
        0 <= idx <= 16,
        0 <= i,
        i + enc_palette_fields(p, idx).len() <= s.len(),
        s.subrange(i, i + enc_palette_fields(p, idx).len()) == enc_palette_fields(p, idx),
    ensures
        parse_palette_fields(s, i, idx, acc)
            == Ok::<(Seq<Rgba>, int), Error>((
                acc + p.skip(idx),
                i + enc_palette_fields(p, idx).len(),
            )),
    decreases 16 - idx,
{
    if idx >= 16 {
        assert(acc + p.skip(16) =~= acc);
    } else {
        let e0 = enc_palette_field(p[idx]);
        let l0 = e0.len() as int;
        let t = field_term(idx);
        let rest = enc_palette_fields(p, idx + 1);
        assert(enc_palette_fields(p, idx) =~= e0 + (seq![t] + rest));
        lemma_subrange_split(s, i, e0, seq![t] + rest);
        lemma_subrange_split(s, i + l0, seq![t], rest);
        lemma_subrange_index(s, i + l0, seq![t], 0);
        assert(s[i + l0] == t);
        assert(!is_hex_byte(t));
        lemma_parse_field_of_enc(s, i, p[idx], t);
        lemma_field_value_of_digits(p[idx]);
        lemma_parse_palette_fields_of_enc(s, i + l0 + 1, p, idx + 1, acc.push(p[idx]));
        assert(acc.push(p[idx]) + p.skip(idx + 1) =~= acc + p.skip(idx));
    }
}

/// Parsing the printed form of a palette of canonical entries gives the
/// palette back.
pub proof fn lemma_parse_palette_of_enc(s: Seq<u8>, i: int, p: Seq<Rgba>)
    requires
        p.len() == 16,
        forall|k: int| 0 <= k < 16 ==> entry_canonical(#[trigger] p[k]),
        0 <= i,
        i + enc_palette(p).len() <= s.len(),
        s.subrange(i, i + enc_palette(p).len()) == enc_palette(p),
    ensures
        parse_palette(s, i)
            == Ok::<(Seq<Rgba>, int), Error>((p, i + enc_palette(p).len())),
{
    lemma_parse_palette_fields_of_enc(s, i, p, 0, Seq::<Rgba>::empty());
    assert(Seq::<Rgba>::empty() + p.skip(0) =~= p);
}

} // verus!
