//! The quoted-string, quoted-character and bracketed-integer-list
//! micro-grammars, built on backslash escapes.
//!
//! An escape is one of `\\`, `\'`, `\"`, `\n`, `\r`, `\t`, or `\u{...}` with
//! one to eight hex digits naming a Unicode scalar value.  Outside escapes
//! only printable ASCII bytes other than the closing quote and the backslash
//! may appear.

use vstd::prelude::*;
use crate::ascii::{
    BACKSLASH, COMMA, D0, D9, LBRACE, LBRACKET, LN, LR, LT, LU, MINUS, QUOTE1, QUOTE2, RBRACE,
    RBRACKET, SP, TILDE,
};
use crate::error::Error;
use crate::token::{
    enc_dec_int, enc_hex_lower, lemma_parse_hex_digits_ok, lemma_parse_hex_of_enc_lower,
    lemma_subrange_index, lemma_subrange_split, parse_byte, parse_hex_u32, read_exact_byte,
    read_hex_u32, write_dec_i32, write_hex_lower_u32,
};

verus! {

/// Whether `v` is a Unicode scalar value: below the surrogate range, or
/// between it and the last code point.
pub open spec fn is_unicode_scalar(v: int) -> bool {
    (0 <= v < 0xD800) || (0xE000 <= v < 0x110000)
}

/// Relies on `char::from_u32` of std: it returns the character with code
/// point `v` when `v` is a Unicode scalar value, and `None` exactly when `v`
/// is a surrogate or lies beyond the last code point.
#[verifier::external_body]
pub(crate) fn char_from_u32(v: u32) -> (r: Option<char>)
    ensures
        match r {
            Some(c) => is_unicode_scalar(v as int) && c as u32 == v,
            None => !is_unicode_scalar(v as int),
        },
{
    char::from_u32(v)
}

/// One character position inside a quoted literal: the closing quote yields
/// `None`; an escape or a printable ASCII byte yields the character.
pub open spec fn parse_char_escape(s: Seq<u8>, i: int, quote: u8) -> Result<
    (Option<char>, int),
    Error,
> {
    if !(0 <= i < s.len()) {
        Err(Error::UnexpectedEnd)
    } else {
        let b = s[i];
        if b == quote {
            Ok((None, i + 1))
        } else if b == BACKSLASH {
            if !(i + 1 < s.len()) {
                Err(Error::UnexpectedEnd)
            } else {
                let e = s[i + 1];
                if e == BACKSLASH {
                    Ok((Some('\\'), i + 2))
                } else if e == QUOTE1 {
                    Ok((Some('\''), i + 2))
                } else if e == QUOTE2 {
                    Ok((Some('"'), i + 2))
                } else if e == LN {
                    Ok((Some('\n'), i + 2))
                } else if e == LR {
                    Ok((Some('\r'), i + 2))
                } else if e == LT {
                    Ok((Some('\t'), i + 2))
                } else if e == LU {
                    match parse_byte(s, i + 2, LBRACE) {
                        Ok(j) => match parse_hex_u32(s, j, RBRACE) {
                            Ok((v, j2)) => if is_unicode_scalar(v) {
                                Ok((Some((v as u32) as char), j2))
                            } else {
                                Err(Error::InvalidUnicodeScalar(v as u32))
                            },
                            Err(e2) => Err(e2),
                        },
                        Err(e2) => Err(e2),
                    }
                } else {
                    Err(Error::InvalidCharEscape(e))
                }
            }
        } else if b < SP || b > TILDE {
            Err(Error::InvalidCharLiteralByte(b))
        } else {
            Ok((Some((b as u32) as char), i + 1))
        }
    }
}

/// A successful escape parse moves forward and stays inside the input.
pub proof fn lemma_parse_char_escape_ok(s: Seq<u8>, i: int, quote: u8)
    ensures
        match parse_char_escape(s, i, quote) {
            Ok((oc, j)) => i < j <= s.len(),
            Err(_) => true,
        },
{
    if 0 <= i < s.len() && s[i] == BACKSLASH && i + 1 < s.len() && s[i + 1] == LU {
        lemma_parse_hex_digits_ok(s, i + 3, RBRACE, Seq::<u8>::empty());
    }
}

/// Reads one character position inside a quoted literal.
pub fn read_char_escape(data: &[u8], pos: usize, quote: u8) -> (r: Result<
    (Option<char>, usize),
    Error,
>)
    requires
        pos <= data@.len(),
    ensures
        match r {
            Ok((oc, j)) => parse_char_escape(data@, pos as int, quote)
                == Ok::<(Option<char>, int), Error>((oc, j as int))
                && pos < j <= data@.len(),
            Err(e) => parse_char_escape(data@, pos as int, quote)
                == Err::<(Option<char>, int), Error>(e),
        },
{
    proof {
        lemma_parse_char_escape_ok(data@, pos as int, quote);
    }
    if pos >= data.len() {
        return Err(Error::UnexpectedEnd);
    }
    let b = data[pos];
    if b == quote {
        return Ok((None, pos + 1));
    }
    if b == BACKSLASH {
        if pos + 1 >= data.len() {
            return Err(Error::UnexpectedEnd);
        }
        let e = data[pos + 1];
        if e == BACKSLASH {
            return Ok((Some('\\'), pos + 2));
        } else if e == QUOTE1 {
            return Ok((Some('\''), pos + 2));
        } else if e == QUOTE2 {
            return Ok((Some('"'), pos + 2));
        } else if e == LN {
            return Ok((Some('\n'), pos + 2));
        } else if e == LR {
            return Ok((Some('\r'), pos + 2));
        } else if e == LT {
            return Ok((Some('\t'), pos + 2));
        } else if e == LU {
            let j = match read_exact_byte(data, pos + 2, LBRACE) {
                Ok(j) => j,
                Err(er) => return Err(er),
            };
            let (v, j2) = match read_hex_u32(data, j, RBRACE) {
                Ok(p) => p,
                Err(er) => return Err(er),
            };
            match char_from_u32(v) {
                Some(c) => {
                    proof {
                        vstd::utf8::char_u32_cast(c, v);
                    }
                    return Ok((Some(c), j2));
                },
                None => {
                    return Err(Error::InvalidUnicodeScalar(v));
                },
            }
        } else {
            return Err(Error::InvalidCharEscape(e));
        }
    }
    if b < SP || b > TILDE {
        return Err(Error::InvalidCharLiteralByte(b));
    }
    match char_from_u32(b as u32) {
        Some(c) => {
            proof {
                vstd::utf8::char_u32_cast(c, b as u32);
            }
            Ok((Some(c), pos + 1))
        },
        None => {
            proof {
                assert(false);
            }
            Err(Error::UnexpectedEnd)
        },
    }
}

/// A single-quoted character literal: exactly one escaped or literal
/// character between single quotes.
pub open spec fn parse_quoted_char(s: Seq<u8>, i: int) -> Result<(char, int), Error> {
    match parse_byte(s, i, QUOTE1) {
        Ok(j) => match parse_char_escape(s, j, QUOTE1) {
            Ok((None, _)) => Err(Error::EmptyCharLiteral),
            Ok((Some(c), j2)) => match parse_byte(s, j2, QUOTE1) {
                Ok(j3) => Ok((c, j3)),
                Err(e) => Err(e),
            },
            Err(e) => Err(e),
        },
        Err(e) => Err(e),
    }
}

/// Reads a single-quoted character literal.
pub fn read_quoted_char(data: &[u8], pos: usize) -> (r: Result<(char, usize), Error>)
    requires
        pos <= data@.len(),
    ensures
        match r {
            Ok((c, j)) => parse_quoted_char(data@, pos as int)
                == Ok::<(char, int), Error>((c, j as int))
                && pos < j <= data@.len(),
            Err(e) => parse_quoted_char(data@, pos as int) == Err::<(char, int), Error>(e),
        },
{
    let j = match read_exact_byte(data, pos, QUOTE1) {
        Ok(j) => j,
        Err(e) => return Err(e),
    };
    let (oc, j2) = match read_char_escape(data, j, QUOTE1) {
        Ok(p) => p,
        Err(e) => return Err(e),
    };
    let c = match oc {
        Some(c) => c,
        None => return Err(Error::EmptyCharLiteral),
    };
    let j3 = match read_exact_byte(data, j2, QUOTE1) {
        Ok(j3) => j3,
        Err(e) => return Err(e),
    };
    Ok((c, j3))
}

/// The characters of a double-quoted string after the opening quote, ended
/// by the unescaped closing quote.
pub open spec fn parse_str_chars(s: Seq<u8>, i: int, acc: Seq<char>) -> Result<
    (Seq<char>, int),
    Error,
>
    decreases s.len() - i,
    via parse_str_chars_dec
{
    match parse_char_escape(s, i, QUOTE2) {
        Ok((None, j)) => Ok((acc, j)),
        Ok((Some(c), j)) => parse_str_chars(s, j, acc.push(c)),
        Err(e) => Err(e),
    }
}

#[via_fn]
proof fn parse_str_chars_dec(s: Seq<u8>, i: int, acc: Seq<char>) {
    lemma_parse_char_escape_ok(s, i, QUOTE2);
}

/// A double-quoted string literal.
pub open spec fn parse_quoted_string(s: Seq<u8>, i: int) -> Result<(Seq<char>, int), Error> {
    match parse_byte(s, i, QUOTE2) {
        Ok(j) => parse_str_chars(s, j, Seq::<char>::empty()),
        Err(e) => Err(e),
    }
}

/// Reads a double-quoted string literal into its characters.
pub fn read_quoted_string(data: &[u8], pos: usize) -> (r: Result<(Vec<char>, usize), Error>)
    requires
        pos <= data@.len(),
    ensures
        match r {
            Ok((t, j)) => parse_quoted_string(data@, pos as int)
                == Ok::<(Seq<char>, int), Error>((t@, j as int))
                && pos < j <= data@.len(),
            Err(e) => parse_quoted_string(data@, pos as int)
                == Err::<(Seq<char>, int), Error>(e),
        },
{
    let mut j = match read_exact_byte(data, pos, QUOTE2) {
        Ok(j) => j,
        Err(e) => return Err(e),
    };
    let mut acc: Vec<char> = Vec::new();
    loop
        invariant
            pos < j <= data@.len(),
            parse_quoted_string(data@, pos as int) == parse_str_chars(data@, j as int, acc@),
        decreases data@.len() - j,
    {
        match read_char_escape(data, j, QUOTE2) {
            Ok((Some(c), j2)) => {
                acc.push(c);
                j = j2;
            },
            Ok((None, j2)) => {
                return Ok((acc, j2));
            },
            Err(e) => {
                return Err(e);
            },
        }
    }
}

// ===================================================================== //
//  Bracketed lists of 16-bit integers                                   //
// ===================================================================== //

/// One integer inside a bracketed list, ended by a comma or the closing
/// bracket; yields the value (or nothing, for the empty list) and whether
/// the bracket closed the list.
pub open spec fn parse_list_int(
    s: Seq<u8>,
    i: int,
    neg: bool,
    any: bool,
    val: int,
    first: bool,
) -> Result<((Option<int>, bool), int), Error>
    decreases s.len() - i,
{
    if !(0 <= i < s.len()) {
        Err(Error::UnexpectedEnd)
    } else {
        let b = s[i];
        if b == RBRACKET || b == COMMA {
            if !any && (b == COMMA || !first) {
                Err(Error::MissingDigits)
            } else if !any {
                Ok(((None, true), i + 1))
            } else {
                let v = if neg { -val } else { val };
                if v > 0x7FFF || v < -0x8000 {
                    Err(Error::ListIntegerOutOfRange)
                } else {
                    Ok(((Some(v), b == RBRACKET), i + 1))
                }
            }
        } else if b == MINUS {
            if neg || any {
                Err(Error::MisplacedSign)
            } else {
                parse_list_int(s, i + 1, true, any, val, first)
            }
        } else if b < D0 || b > D9 {
            Err(Error::InvalidDigit(b))
        } else {
            let v2 = val * 10 + (b - D0);
            if v2 > 0x8000 {
                Err(Error::ListIntegerOutOfRange)
            } else {
                parse_list_int(s, i + 1, neg, true, v2, first)
            }
        }
    }
}

/// A successful list-integer parse moves forward and stays inside the input.
pub proof fn lemma_parse_list_int_ok(s: Seq<u8>, i: int, neg: bool, any: bool, val: int, first: bool)
    ensures
        match parse_list_int(s, i, neg, any, val, first) {
            Ok((p, j)) => i < j <= s.len(),
            Err(_) => true,
        },
    decreases s.len() - i,
{
    if 0 <= i < s.len() {
        let b = s[i];
        if b == RBRACKET || b == COMMA {
        } else if b == MINUS {
            if !(neg || any) {
                lemma_parse_list_int_ok(s, i + 1, true, any, val, first);
            }
        } else if D0 <= b <= D9 {
            if val * 10 + (b - D0) <= 0x8000 {
                lemma_parse_list_int_ok(s, i + 1, neg, true, val * 10 + (b - D0), first);
            }
        }
    }
}

/// The comma-and-space-separated integers of a bracketed list after the
/// opening bracket, ended by the closing bracket.
pub open spec fn parse_i16_items(s: Seq<u8>, i: int, acc: Seq<i16>, first: bool) -> Result<
    (Seq<i16>, int),
    Error,
>
    decreases s.len() - i,
    via parse_i16_items_dec
{
    match parse_list_int(s, i, false, false, 0, first) {
        Ok(((ov, done), j)) => match ov {
            None => Ok((acc, j)),
            Some(v) => if done {
                Ok((acc.push(v as i16), j))
            } else {
                match parse_byte(s, j, SP) {
                    Ok(j2) => parse_i16_items(s, j2, acc.push(v as i16), false),
                    Err(e) => Err(e),
                }
            },
        },
        Err(e) => Err(e),
    }
}

#[via_fn]
proof fn parse_i16_items_dec(s: Seq<u8>, i: int, acc: Seq<i16>, first: bool) {
    lemma_parse_list_int_ok(s, i, false, false, 0, first);
}

/// A bracketed list of signed 16-bit integers.
pub open spec fn parse_i16_list(s: Seq<u8>, i: int) -> Result<(Seq<i16>, int), Error> {
    match parse_byte(s, i, LBRACKET) {
        Ok(j) => parse_i16_items(s, j, Seq::<i16>::empty(), true),
        Err(e) => Err(e),
    }
}

/// Reads one integer inside a bracketed list.
fn read_list_int(data: &[u8], pos: usize, first: bool) -> (r: Result<
    ((Option<i16>, bool), usize),
    Error,
>)
    requires
        pos <= data@.len(),
    ensures
        match r {
            Ok(((ov, done), j)) => parse_list_int(data@, pos as int, false, false, 0, first)
                == Ok::<((Option<int>, bool), int), Error>((
                    (match ov {
                        Some(v) => Some(v as int),
                        None => None,
                    }, done),
                    j as int,
                ))
                && pos < j <= data@.len(),
            Err(e) => parse_list_int(data@, pos as int, false, false, 0, first)
                == Err::<((Option<int>, bool), int), Error>(e),
        },
{
    let mut neg = false;
    let mut any = false;
    let mut val: u32 = 0;
    let mut i = pos;
    loop
        invariant
            pos <= i <= data@.len(),
            val <= 0x8000,
            parse_list_int(data@, pos as int, false, false, 0, first)
                == parse_list_int(data@, i as int, neg, any, val as int, first),
            any ==> i > pos,
        decreases data@.len() - i,
    {
        if i >= data.len() {
            return Err(Error::UnexpectedEnd);
        }
        let b = data[i];
        if b == RBRACKET || b == COMMA {
            if !any && (b == COMMA || !first) {
                return Err(Error::MissingDigits);
            } else if !any {
                return Ok(((None, true), i + 1));
            } else {
                let v: i32 = if neg { -(val as i32) } else { val as i32 };
                if v > 0x7FFF || v < -0x8000 {
                    return Err(Error::ListIntegerOutOfRange);
                }
                return Ok(((Some(v as i16), b == RBRACKET), i + 1));
            }
        } else if b == MINUS {
            if neg || any {
                return Err(Error::MisplacedSign);
            }
            neg = true;
            i = i + 1;
        } else if b < D0 || b > D9 {
            return Err(Error::InvalidDigit(b));
        } else {
            let v2 = val * 10 + (b - D0) as u32;
            if v2 > 0x8000 {
                return Err(Error::ListIntegerOutOfRange);
            }
            val = v2;
            any = true;
            i = i + 1;
        }
    }
}

/// Reads a bracketed list of signed 16-bit integers.
pub fn read_list_of_i16s(data: &[u8], pos: usize) -> (r: Result<(Vec<i16>, usize), Error>)
    requires
        pos <= data@.len(),
    ensures
        match r {
            Ok((vs, j)) => parse_i16_list(data@, pos as int)
                == Ok::<(Seq<i16>, int), Error>((vs@, j as int))
                && pos < j <= data@.len(),
            Err(e) => parse_i16_list(data@, pos as int) == Err::<(Seq<i16>, int), Error>(e),
        },
{
    let mut j = match read_exact_byte(data, pos, LBRACKET) {
        Ok(j) => j,
        Err(e) => return Err(e),
    };
    let mut acc: Vec<i16> = Vec::new();
    let mut first = true;
    loop
        invariant
            pos < j <= data@.len(),
            parse_i16_list(data@, pos as int) == parse_i16_items(data@, j as int, acc@, first),
        decreases data@.len() - j,
    {
        match read_list_int(data, j, first) {
            Ok(((ov, done), j2)) => {
                match ov {
                    None => {
                        return Ok((acc, j2));
                    },
                    Some(v) => {
                        acc.push(v);
                        if done {
                            return Ok((acc, j2));
                        }
                        match read_exact_byte(data, j2, SP) {
                            Ok(j3) => {
                                j = j3;
                                first = false;
                            },
                            Err(e) => {
                                return Err(e);
                            },
                        }
                    },
                }
            },
            Err(e) => {
                return Err(e);
            },
        }
    }
}

// ===================================================================== //
//  Printers                                                             //
// ===================================================================== //

/// The escaped form of one character: a two-byte escape for the six special
/// characters, the byte itself for other printable ASCII, and a lowercase
/// `\u{...}` escape for everything else.
pub open spec fn esc_char(c: char) -> Seq<u8> {
    if c == '\\' {
        seq![BACKSLASH, BACKSLASH]
    } else if c == '\'' {
        seq![BACKSLASH, QUOTE1]
    } else if c == '"' {
        seq![BACKSLASH, QUOTE2]
    } else if c == '\n' {
        seq![BACKSLASH, LN]
    } else if c == '\r' {
        seq![BACKSLASH, LR]
    } else if c == '\t' {
        seq![BACKSLASH, LT]
    } else if SP <= c as u32 && c as u32 <= TILDE {
        seq![(c as u32) as u8]
    } else {
        seq![BACKSLASH, LU, LBRACE] + enc_hex_lower(c as u32 as int) + seq![RBRACE]
    }
}

/// The escaped forms of a sequence of characters, concatenated.
pub open spec fn enc_chars(t: Seq<char>) -> Seq<u8>
    decreases t.len(),
{
    if t.len() == 0 {
        Seq::<u8>::empty()
    } else {
        esc_char(t[0]) + enc_chars(t.drop_first())
    }
}

/// The printed form of a double-quoted string.
pub open spec fn enc_quoted_string(t: Seq<char>) -> Seq<u8> {
    seq![QUOTE2] + enc_chars(t) + seq![QUOTE2]
}

/// The printed form of a single-quoted character literal.
pub open spec fn enc_quoted_char(c: char) -> Seq<u8> {
    seq![QUOTE1] + esc_char(c) + seq![QUOTE1]
}

/// The comma-and-space-separated printed forms of list integers.
pub open spec fn enc_i16_items(vs: Seq<i16>) -> Seq<u8>
    decreases vs.len(),
{
    if vs.len() == 0 {
        Seq::<u8>::empty()
    } else if vs.len() == 1 {
        enc_dec_int(vs[0] as int)
    } else {
        enc_dec_int(vs[0] as int) + seq![COMMA, SP] + enc_i16_items(vs.drop_first())
    }
}

/// The printed form of a bracketed integer list.
pub open spec fn enc_i16_list(vs: Seq<i16>) -> Seq<u8> {
    seq![LBRACKET] + enc_i16_items(vs) + seq![RBRACKET]
}

/// Appends the escaped form of one character.
pub fn write_esc_char(out: &mut Vec<u8>, c: char)
    ensures
        final(out)@ == old(out)@ + esc_char(c),
{
    if c == '\\' {
        out.push(BACKSLASH);
        out.push(BACKSLASH);
        proof {
            assert(final(out)@ =~= old(out)@ + esc_char(c));
        }
    } else if c == '\'' {
        out.push(BACKSLASH);
        out.push(QUOTE1);
        proof {
            assert(final(out)@ =~= old(out)@ + esc_char(c));
        }
    } else if c == '"' {
        out.push(BACKSLASH);
        out.push(QUOTE2);
        proof {
            assert(final(out)@ =~= old(out)@ + esc_char(c));
        }
    } else if c == '\n' {
        out.push(BACKSLASH);
        out.push(LN);
        proof {
            assert(final(out)@ =~= old(out)@ + esc_char(c));
        }
    } else if c == '\r' {
        out.push(BACKSLASH);
        out.push(LR);
        proof {
            assert(final(out)@ =~= old(out)@ + esc_char(c));
        }
    } else if c == '\t' {
        out.push(BACKSLASH);
        out.push(LT);
        proof {
            assert(final(out)@ =~= old(out)@ + esc_char(c));
        }
    } else {
        let u = c as u32;
        if 32 <= u && u <= 126 {
            out.push(u as u8);
            proof {
                assert(final(out)@ =~= old(out)@ + esc_char(c));
            }
        } else {
            out.push(BACKSLASH);
            out.push(LU);
            out.push(LBRACE);
            write_hex_lower_u32(out, u);
            out.push(RBRACE);
            proof {
                assert(final(out)@ =~= old(out)@ + esc_char(c));
            }
        }
    }
}

/// Appends the escaped forms of the characters of `t` from index `k` on.
pub fn write_esc_chars(out: &mut Vec<u8>, t: &Vec<char>, k: usize)
    requires
        k <= t@.len(),
    ensures
        final(out)@ == old(out)@ + enc_chars(t@.subrange(k as int, t@.len() as int)),
    decreases t@.len() - k,
{
    if k == t.len() {
        proof {
            assert(t@.subrange(k as int, t@.len() as int) =~= Seq::<char>::empty());
            assert(final(out)@ =~= old(out)@ + enc_chars(Seq::<char>::empty()));
        }
        return;
    }
    write_esc_char(out, t[k]);
    write_esc_chars(out, t, k + 1);
    proof {
        let sub = t@.subrange(k as int, t@.len() as int);
        assert(sub[0] == t@[k as int]);
        assert(sub.drop_first() =~= t@.subrange(k + 1, t@.len() as int));
        assert(final(out)@ =~= old(out)@ + enc_chars(sub));
    }
}

/// Appends the printed form of a double-quoted string.
pub fn write_quoted_string(out: &mut Vec<u8>, t: &Vec<char>)
    ensures
        final(out)@ == old(out)@ + enc_quoted_string(t@),
{
    out.push(QUOTE2);
    write_esc_chars(out, t, 0);
    out.push(QUOTE2);
    proof {
        assert(t@.subrange(0, t@.len() as int) =~= t@);
        assert(final(out)@ =~= old(out)@ + enc_quoted_string(t@));
    }
}

/// Appends the printed form of a single-quoted character literal.
pub fn write_quoted_char(out: &mut Vec<u8>, c: char)
    ensures
        final(out)@ == old(out)@ + enc_quoted_char(c),
{
    out.push(QUOTE1);
    write_esc_char(out, c);
    out.push(QUOTE1);
    proof {
        assert(final(out)@ =~= old(out)@ + enc_quoted_char(c));
    }
}

/// Appends the printed forms of the list integers from index `k` on.
pub fn write_i16_items(out: &mut Vec<u8>, vs: &Vec<i16>, k: usize)
    requires
        k <= vs@.len(),
    ensures
        final(out)@ == old(out)@ + enc_i16_items(vs@.subrange(k as int, vs@.len() as int)),
    decreases vs@.len() - k,
{
    if k == vs.len() {
        proof {
            assert(vs@.subrange(k as int, vs@.len() as int) =~= Seq::<i16>::empty());
            assert(final(out)@ =~= old(out)@ + enc_i16_items(Seq::<i16>::empty()));
        }
        return;
    }
    write_dec_i32(out, vs[k] as i32);
    let ghost sub = vs@.subrange(k as int, vs@.len() as int);
    proof {
        assert(sub[0] == vs@[k as int]);
    }
    if k + 1 < vs.len() {
        out.push(COMMA);
        out.push(SP);
        write_i16_items(out, vs, k + 1);
        proof {
            assert(sub.drop_first() =~= vs@.subrange(k + 1, vs@.len() as int));
            assert(final(out)@ =~= old(out)@ + (enc_dec_int(sub[0] as int)
                + seq![COMMA, SP] + enc_i16_items(sub.drop_first())));
            assert(final(out)@ =~= old(out)@ + enc_i16_items(sub));
        }
    } else {
        proof {
            assert(sub.len() == 1);
            assert(final(out)@ =~= old(out)@ + enc_i16_items(sub));
        }
    }
}

/// Appends the printed form of a bracketed integer list.
pub fn write_i16_list(out: &mut Vec<u8>, vs: &Vec<i16>)
    ensures
        final(out)@ == old(out)@ + enc_i16_list(vs@),
{
    out.push(LBRACKET);
    write_i16_items(out, vs, 0);
    out.push(RBRACKET);
    proof {
        assert(vs@.subrange(0, vs@.len() as int) =~= vs@);
        assert(final(out)@ =~= old(out)@ + enc_i16_list(vs@));
    }
}

// ===================================================================== //
//  Round trips                                                          //
// ===================================================================== //

/// Two characters with the same code point are the same character.
proof fn lemma_char_code_injective(c1: char, c2: char)
    requires
        c1 as u32 == c2 as u32,
    ensures
        c1 == c2,
{
    vstd::utf8::char_u32_cast(c1, c1 as u32);
    vstd::utf8::char_u32_cast(c2, c2 as u32);
}

/// Parsing the escaped form of a character inside a quoted literal gives the
/// character back.
pub proof fn lemma_parse_esc_of_enc(s: Seq<u8>, i: int, c: char, quote: u8)
    requires
        quote == QUOTE1 || quote == QUOTE2,
        0 <= i,
        i + esc_char(c).len() <= s.len(),
        s.subrange(i, i + esc_char(c).len()) == esc_char(c),
    ensures
        parse_char_escape(s, i, quote)
            == Ok::<(Option<char>, int), Error>((Some(c), i + esc_char(c).len())),
{
    let e = esc_char(c);
    let l = e.len() as int;
    let u = c as u32;
    vstd::utf8::char_is_scalar(c);
    assert(is_unicode_scalar(u as int));
    if c == '\\' || c == '\'' || c == '"' || c == '\n' || c == '\r' || c == '\t' {
        lemma_subrange_index(s, i, e, 0);
        lemma_subrange_index(s, i, e, 1);
        assert(s[i] == BACKSLASH);
    } else if SP <= u && u <= TILDE {
        lemma_subrange_index(s, i, e, 0);
        let b = (u as u8);
        assert(s[i] == b);
        assert(b as u32 == u);
        if b == QUOTE1 {
            lemma_char_code_injective(c, '\'');
            assert(false);
        }
        if b == QUOTE2 {
            lemma_char_code_injective(c, '"');
            assert(false);
        }
        if b == BACKSLASH {
            lemma_char_code_injective(c, '\\');
            assert(false);
        }
        assert(s[i] != quote);
        assert(!(b < SP || b > TILDE));
        lemma_char_code_injective(c, (b as u32) as char);
    } else {
        let h = enc_hex_lower(u as int);
        let lh = h.len() as int;
        assert(e == seq![BACKSLASH, LU, LBRACE] + h + seq![RBRACE]);
        assert(e =~= seq![BACKSLASH, LU, LBRACE] + (h + seq![RBRACE]));
        lemma_subrange_split(s, i, seq![BACKSLASH, LU, LBRACE], h + seq![RBRACE]);
        lemma_subrange_split(s, i + 3, h, seq![RBRACE]);
        lemma_subrange_index(s, i, seq![BACKSLASH, LU, LBRACE], 0);
        lemma_subrange_index(s, i, seq![BACKSLASH, LU, LBRACE], 1);
        lemma_subrange_index(s, i, seq![BACKSLASH, LU, LBRACE], 2);
        lemma_subrange_index(s, i + 3 + lh, seq![RBRACE], 0);
        assert(s[i] == BACKSLASH && s[i + 1] == LU && s[i + 2] == LBRACE);
        assert(s[i + 3 + lh] == RBRACE);
        assert(parse_byte(s, i + 2, LBRACE) == Ok::<int, Error>(i + 3));
        lemma_parse_hex_of_enc_lower(s, i + 3, u as int, RBRACE);
        assert(parse_hex_u32(s, i + 3, RBRACE)
            == Ok::<(int, int), Error>((u as int, i + 3 + lh + 1)));
        lemma_char_code_injective(c, (u as u32) as char);
    }
}

/// Parsing the escaped characters of a string followed by the closing quote
/// appends the characters to the accumulator.
pub proof fn lemma_parse_str_of_enc(s: Seq<u8>, i: int, t: Seq<char>, acc: Seq<char>)
    requires
        0 <= i,
        i + enc_chars(t).len() + 1 <= s.len(),
        s.subrange(i, i + enc_chars(t).len() + 1) == enc_chars(t) + seq![QUOTE2],
    ensures
        parse_str_chars(s, i, acc)
            == Ok::<(Seq<char>, int), Error>((acc + t, i + enc_chars(t).len() + 1)),
    decreases t.len(),
{
    if t.len() == 0 {
        assert(enc_chars(t) + seq![QUOTE2] =~= seq![QUOTE2]);
        lemma_subrange_index(s, i, seq![QUOTE2], 0);
        assert(s[i] == QUOTE2);
        assert(acc + t =~= acc);
    } else {
        let e0 = esc_char(t[0]);
        let rest = enc_chars(t.drop_first());
        assert(enc_chars(t) == e0 + rest);
        assert(enc_chars(t) + seq![QUOTE2] =~= e0 + (rest + seq![QUOTE2]));
        lemma_subrange_split(s, i, e0, rest + seq![QUOTE2]);
        lemma_parse_esc_of_enc(s, i, t[0], QUOTE2);
        lemma_parse_str_of_enc(s, i + e0.len(), t.drop_first(), acc.push(t[0]));
        assert(acc.push(t[0]) + t.drop_first() =~= acc + t);
    }
}

/// Parsing the printed form of a quoted string gives the characters back.
pub proof fn lemma_parse_quoted_string_of_enc(s: Seq<u8>, i: int, t: Seq<char>)
    requires
        0 <= i,
        i + enc_quoted_string(t).len() <= s.len(),
        s.subrange(i, i + enc_quoted_string(t).len()) == enc_quoted_string(t),
    ensures
        parse_quoted_string(s, i)
            == Ok::<(Seq<char>, int), Error>((t, i + enc_quoted_string(t).len())),
{
    let q = enc_quoted_string(t);
    assert(q =~= seq![QUOTE2] + (enc_chars(t) + seq![QUOTE2]));
    lemma_subrange_split(s, i, seq![QUOTE2], enc_chars(t) + seq![QUOTE2]);
    lemma_subrange_index(s, i, seq![QUOTE2], 0);
    assert(s[i] == QUOTE2);
    lemma_parse_str_of_enc(s, i + 1, t, Seq::<char>::empty());
    assert(Seq::<char>::empty() + t =~= t);
}

/// Parsing the printed form of a quoted character literal gives the
/// character back.
pub proof fn lemma_parse_quoted_char_of_enc(s: Seq<u8>, i: int, c: char)
    requires
        0 <= i,
        i + enc_quoted_char(c).len() <= s.len(),
        s.subrange(i, i + enc_quoted_char(c).len()) == enc_quoted_char(c),
    ensures
        parse_quoted_char(s, i)
            == Ok::<(char, int), Error>((c, i + enc_quoted_char(c).len())),
{
    let q = enc_quoted_char(c);
    let e = esc_char(c);
    let l = e.len() as int;
    assert(q =~= seq![QUOTE1] + (e + seq![QUOTE1]));
    lemma_subrange_split(s, i, seq![QUOTE1], e + seq![QUOTE1]);
    lemma_subrange_split(s, i + 1, e, seq![QUOTE1]);
    lemma_subrange_index(s, i, seq![QUOTE1], 0);
    lemma_subrange_index(s, i + 1 + l, seq![QUOTE1], 0);
    assert(s[i] == QUOTE1);
    assert(s[i + 1 + l] == QUOTE1);
    lemma_parse_esc_of_enc(s, i + 1, c, QUOTE1);
}

/// Consuming the printed digits of `n` inside a list folds them onto the
/// accumulator.
proof fn lemma_parse_list_run(
    s: Seq<u8>,
    i: int,
    neg: bool,
    any: bool,
    acc: int,
    n: int,
    f: bool,
)
    requires
        0 <= n,
        0 <= acc,
        acc * crate::token::pow10(crate::token::dec_digits(n).len()) + n <= 0x8000,
        0 <= i,
        i + crate::token::dec_digits(n).len() <= s.len(),
        s.subrange(i, i + crate::token::dec_digits(n).len()) == crate::token::dec_digits(n),
    ensures
        parse_list_int(s, i, neg, any, acc, f)
            == parse_list_int(s, i + crate::token::dec_digits(n).len(), neg, true,
                acc * crate::token::pow10(crate::token::dec_digits(n).len()) + n, f),
    decreases n,
{
    let dd = crate::token::dec_digits(n);
    let l = dd.len() as int;
    crate::token::lemma_dec_digits_are_digits(n);
    crate::token::lemma_pow10_pos(dd.len());
    if n < 10 {
        assert(dd == seq![(D0 + n) as u8]);
        assert(s.subrange(i, i + l)[0] == dd[0]);
        assert(s[i] == D0 + n);
        assert(crate::token::pow10(1) == 10) by {
            reveal_with_fuel(crate::token::pow10, 2);
        }
        assert(s[i] != RBRACKET && s[i] != COMMA && s[i] != MINUS);
        assert(parse_list_int(s, i, neg, any, acc, f)
            == parse_list_int(s, i + 1, neg, true, acc * 10 + n, f));
    } else {
        let hd = crate::token::dec_digits(n / 10);
        let lh = hd.len() as int;
        assert(dd == hd.push((D0 + n % 10) as u8));
        assert(s.subrange(i, i + lh) =~= hd) by {
            assert forall|k: int| 0 <= k < lh
                implies #[trigger] s.subrange(i, i + lh)[k] == hd[k] by {
                assert(s.subrange(i, i + l)[k] == dd[k]);
                assert(s[i + k] == dd[k]);
                assert(dd[k] == hd[k]);
            }
        }
        crate::token::lemma_pow10_pos(hd.len());
        let ph = crate::token::pow10(hd.len());
        let pd = crate::token::pow10(dd.len());
        assert(pd == 10 * ph);
        let nd = n / 10;
        let nm = n % 10;
        let acc2 = acc * ph + nd;
        assert(n == 10 * nd + nm);
        assert(acc2 * 10 + nm == acc * pd + n) by (nonlinear_arith)
            requires
                acc2 == acc * ph + nd,
                pd == 10 * ph,
                n == 10 * nd + nm,
        {}
        assert(acc2 >= 0) by (nonlinear_arith)
            requires
                acc >= 0,
                ph >= 1,
                nd >= 0,
                acc2 == acc * ph + nd,
        {}
        lemma_parse_list_run(s, i, neg, any, acc, nd, f);
        let b = s[i + lh];
        assert(s.subrange(i, i + l)[lh] == dd[lh]);
        assert(b == dd[lh]);
        assert(dd[lh] == D0 + nm);
        assert(b != RBRACKET && b != COMMA && b != MINUS);
        assert(parse_list_int(s, i + lh, neg, true, acc2, f)
            == parse_list_int(s, i + l, neg, true, acc2 * 10 + (b - D0), f));
        assert(acc2 * 10 + (b - D0) == acc * pd + n);
    }
}

/// Parsing the printed form of a list integer followed by a separator gives
/// the value back and tells whether the bracket closed the list.
pub proof fn lemma_parse_list_int_of_enc(s: Seq<u8>, i: int, v: int, f: bool)
    requires
        -0x8000 <= v <= 0x7FFF,
        0 <= i,
        i + enc_dec_int(v).len() < s.len(),
        s.subrange(i, i + enc_dec_int(v).len()) == enc_dec_int(v),
        s[i + enc_dec_int(v).len()] == RBRACKET || s[i + enc_dec_int(v).len()] == COMMA,
    ensures
        parse_list_int(s, i, false, false, 0, f)
            == Ok::<((Option<int>, bool), int), Error>((
                (Some(v), s[i + enc_dec_int(v).len()] == RBRACKET),
                i + enc_dec_int(v).len() + 1,
            )),
{
    crate::token::lemma_pow10_pos(crate::token::dec_digits(if v < 0 { -v } else { v }).len());
    if v >= 0 {
        let l = crate::token::dec_digits(v).len() as int;
        lemma_parse_list_run(s, i, false, false, 0, v, f);
        assert(0 * crate::token::pow10(crate::token::dec_digits(v).len()) + v == v);
        assert(parse_list_int(s, i + l, false, true, v, f)
            == Ok::<((Option<int>, bool), int), Error>((
                (Some(v), s[i + l] == RBRACKET), i + l + 1)));
    } else {
        let m = -v;
        let dd = crate::token::dec_digits(m);
        let l = dd.len() as int;
        let e = enc_dec_int(v);
        assert(e == seq![MINUS] + dd);
        assert(s.subrange(i, i + l + 1)[0] == e[0]);
        assert(s[i] == MINUS);
        assert(parse_list_int(s, i, false, false, 0, f)
            == parse_list_int(s, i + 1, true, false, 0, f));
        assert(s.subrange(i + 1, i + 1 + l) =~= dd) by {
            assert forall|k: int| 0 <= k < l
                implies #[trigger] s.subrange(i + 1, i + 1 + l)[k] == dd[k] by {
                assert(s.subrange(i, i + l + 1)[k + 1] == e[k + 1]);
                assert(s[i + (k + 1)] == e[k + 1]);
                assert(e[k + 1] == dd[k]);
                assert(s.subrange(i + 1, i + 1 + l)[k] == s[i + 1 + k]);
            }
        }
        lemma_parse_list_run(s, i + 1, true, false, 0, m, f);
        assert(0 * crate::token::pow10(dd.len()) + m == m);
        assert(parse_list_int(s, i + 1 + l, true, true, m, f)
            == Ok::<((Option<int>, bool), int), Error>((
                (Some(-m), s[i + 1 + l] == RBRACKET), i + 1 + l + 1)));
    }
}

/// Parsing the printed items of an integer list followed by the closing
/// bracket appends the items to the accumulator.
pub proof fn lemma_parse_i16_items_of_enc(s: Seq<u8>, i: int, vs: Seq<i16>, acc: Seq<i16>, f: bool)
    requires
        0 <= i,
        i + enc_i16_items(vs).len() + 1 <= s.len(),
        s.subrange(i, i + enc_i16_items(vs).len() + 1) == enc_i16_items(vs) + seq![RBRACKET],
        vs.len() == 0 ==> f,
    ensures
        parse_i16_items(s, i, acc, f)
            == Ok::<(Seq<i16>, int), Error>((acc + vs, i + enc_i16_items(vs).len() + 1)),
    decreases vs.len(),
{
    if vs.len() == 0 {
        assert(enc_i16_items(vs) + seq![RBRACKET] =~= seq![RBRACKET]);
        lemma_subrange_index(s, i, seq![RBRACKET], 0);
        assert(s[i] == RBRACKET);
        assert(acc + vs =~= acc);
    } else if vs.len() == 1 {
        let e0 = enc_dec_int(vs[0] as int);
        let l0 = e0.len() as int;
        assert(enc_i16_items(vs) + seq![RBRACKET] =~= e0 + seq![RBRACKET]);
        lemma_subrange_split(s, i, e0, seq![RBRACKET]);
        lemma_subrange_index(s, i + l0, seq![RBRACKET], 0);
        assert(s[i + l0] == RBRACKET);
        lemma_parse_list_int_of_enc(s, i, vs[0] as int, f);
        assert((vs[0] as int) as i16 == vs[0]);
        assert(acc.push(vs[0]) =~= acc + vs);
    } else {
        let e0 = enc_dec_int(vs[0] as int);
        let l0 = e0.len() as int;
        let rest = enc_i16_items(vs.drop_first());
        assert(enc_i16_items(vs) == e0 + seq![COMMA, SP] + rest);
        assert(enc_i16_items(vs) + seq![RBRACKET]
            =~= e0 + (seq![COMMA, SP] + (rest + seq![RBRACKET])));
        lemma_subrange_split(s, i, e0, seq![COMMA, SP] + (rest + seq![RBRACKET]));
        lemma_subrange_split(s, i + l0, seq![COMMA, SP], rest + seq![RBRACKET]);
        lemma_subrange_index(s, i + l0, seq![COMMA, SP], 0);
        lemma_subrange_index(s, i + l0, seq![COMMA, SP], 1);
        assert(s[i + l0] == COMMA);
        assert(s[i + l0 + 1] == SP);
        lemma_parse_list_int_of_enc(s, i, vs[0] as int, f);
        assert((vs[0] as int) as i16 == vs[0]);
        assert(parse_byte(s, i + l0 + 1, SP) == Ok::<int, Error>(i + l0 + 2));
        lemma_parse_i16_items_of_enc(s, i + l0 + 2, vs.drop_first(), acc.push(vs[0]), false);
        assert(acc.push(vs[0]) + vs.drop_first() =~= acc + vs);
    }
}

/// Parsing the printed form of a bracketed integer list gives the integers
/// back.
pub proof fn lemma_parse_i16_list_of_enc(s: Seq<u8>, i: int, vs: Seq<i16>)
    requires
        0 <= i,
        i + enc_i16_list(vs).len() <= s.len(),
        s.subrange(i, i + enc_i16_list(vs).len()) == enc_i16_list(vs),
    ensures
        parse_i16_list(s, i)
            == Ok::<(Seq<i16>, int), Error>((vs, i + enc_i16_list(vs).len())),
{
    assert(enc_i16_list(vs) =~= seq![LBRACKET] + (enc_i16_items(vs) + seq![RBRACKET]));
    lemma_subrange_split(s, i, seq![LBRACKET], enc_i16_items(vs) + seq![RBRACKET]);
    lemma_subrange_index(s, i, seq![LBRACKET], 0);
    assert(s[i] == LBRACKET);
    lemma_parse_i16_items_of_enc(s, i + 1, vs, Seq::<i16>::empty(), true);
    assert(Seq::<i16>::empty() + vs =~= vs);
}

/// Relies on `str::chars` and `Iterator::collect` of std: the collected
/// vector holds exactly the characters of the string, in order.
#[verifier::external_body]
pub(crate) fn str_to_chars(t: &str) -> (r: Vec<char>)
    ensures
        r@ == t@,
{
    t.chars().collect()
}

/// Relies on `Iterator::collect` for `String` of std: the collected string
/// holds exactly the characters of the vector, in order.
#[verifier::external_body]
pub(crate) fn chars_to_string(t: &Vec<char>) -> (r: String)
    ensures
        r@ == t@,
{
    t.iter().collect()
}

} // verus!
