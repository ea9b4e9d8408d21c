//! Low-level field reading and writing: exact bytes, decimal integers with a
//! magnitude cap, and hex integers, each as a spec-level parser or printer
//! with an executable twin proved equal to it.
//!
//! A parser takes the whole input and a position and yields either the parsed
//! value together with the position just past the consumed bytes, or the
//! error that the grammar assigns to the offending byte.

use vstd::prelude::*;
use crate::ascii::{D0, D9, LA, LF, MINUS, UA, UF};
use crate::error::Error;

verus! {

/// The magnitude cap on decimal header fields.
pub const MAX_HEADER_VALUE: u32 = 0xFFFF;

// ===================================================================== //
//  Single bytes                                                         //
// ===================================================================== //

/// Consumes the single byte `b` at position `i`.
pub open spec fn parse_byte(s: Seq<u8>, i: int, b: u8) -> Result<int, Error> {
    if !(0 <= i < s.len()) {
        Err(Error::UnexpectedEnd)
    } else if s[i] == b {
        Ok(i + 1)
    } else {
        Err(Error::UnexpectedToken)
    }
}

/// Reads the single literal byte `b`.
pub fn read_exact_byte(data: &[u8], pos: usize, b: u8) -> (r: Result<usize, Error>)
    requires
        pos <= data@.len(),
    ensures
        match r {
            Ok(j) => parse_byte(data@, pos as int, b) == Ok::<int, Error>(j as int)
                && j == pos + 1 && j <= data@.len(),
            Err(e) => parse_byte(data@, pos as int, b) == Err::<int, Error>(e),
        },
{
    if pos < data.len() {
        if data[pos] == b {
            Ok(pos + 1)
        } else {
            Err(Error::UnexpectedToken)
        }
    } else {
        Err(Error::UnexpectedEnd)
    }
}

// ===================================================================== //
//  Decimal integers                                                     //
// ===================================================================== //

/// One step of the decimal-field grammar: an optional leading minus sign,
/// one or more digits, then the terminator, with the accumulated magnitude
/// capped at `MAX_HEADER_VALUE`.
pub open spec fn parse_dec(
    s: Seq<u8>,
    i: int,
    term: u8,
    neg: bool,
    any: bool,
    val: int,
) -> Result<(int, int), Error>
    decreases s.len() - i,
{
    if !(0 <= i < s.len()) {
        Err(Error::UnexpectedEnd)
    } else {
        let b = s[i];
        if b == term {
            if !any {
                Err(Error::MissingDigits)
            } else {
                Ok((if neg { -val } else { val }, i + 1))
            }
        } else if b == MINUS {
            if neg || any {
                Err(Error::MisplacedSign)
            } else {
                parse_dec(s, i + 1, term, true, any, val)
            }
        } else if b < D0 || b > D9 {
            Err(Error::InvalidDigit(b))
        } else {
            let v2 = val * 10 + (b - D0);
            if v2 > MAX_HEADER_VALUE {
                Err(Error::ValueTooLarge)
            } else {
                parse_dec(s, i + 1, term, neg, true, v2)
            }
        }
    }
}

/// A signed decimal header field terminated by `term`.
pub open spec fn parse_header_int(s: Seq<u8>, i: int, term: u8) -> Result<(int, int), Error> {
    parse_dec(s, i, term, false, false, 0)
}

/// A nonnegative decimal header field terminated by `term`.
pub open spec fn parse_header_uint(s: Seq<u8>, i: int, term: u8) -> Result<(int, int), Error> {
    match parse_header_int(s, i, term) {
        Ok((v, j)) => if v < 0 {
            Err(Error::NegativeNotAllowed)
        } else {
            Ok((v, j))
        },
        Err(e) => Err(e),
    }
}

/// Reads a signed decimal field terminated by `term`; the result's magnitude
/// is at most `MAX_HEADER_VALUE`.
pub fn read_header_int(data: &[u8], pos: usize, term: u8) -> (r: Result<(i32, usize), Error>)
    requires
        pos <= data@.len(),
    ensures
        match r {
            Ok((v, j)) => parse_header_int(data@, pos as int, term)
                == Ok::<(int, int), Error>((v as int, j as int))
                && pos < j <= data@.len()
                && -0xFFFF <= v <= 0xFFFF,
            Err(e) => parse_header_int(data@, pos as int, term) == Err::<(int, int), Error>(e),
        },
{
    let mut neg = false;
    let mut any = false;
    let mut val: u32 = 0;
    let mut i = pos;
    loop
        invariant
            pos <= i <= data@.len(),
            val <= MAX_HEADER_VALUE,
            parse_header_int(data@, pos as int, term)
                == parse_dec(data@, i as int, term, neg, any, val as int),
            any ==> i > pos,
        decreases data@.len() - i,
    {
        if i >= data.len() {
            return Err(Error::UnexpectedEnd);
        }
        let b = data[i];
        if b == term {
            if !any {
                return Err(Error::MissingDigits);
            }
            let v: i32 = if neg { -(val as i32) } else { val as i32 };
            return Ok((v, i + 1));
        } else if b == MINUS {
            if neg || any {
                return Err(Error::MisplacedSign);
            }
            neg = true;
            i = i + 1;
        } else if b < D0 || b > D9 {
            return Err(Error::InvalidDigit(b));
        } else {
            let v2 = val * 10 + (b - D0) as u32;
            if v2 > MAX_HEADER_VALUE {
                return Err(Error::ValueTooLarge);
            }
            val = v2;
            any = true;
            i = i + 1;
        }
    }
}

/// Reads a nonnegative decimal field terminated by `term`.
pub fn read_header_uint(data: &[u8], pos: usize, term: u8) -> (r: Result<(u32, usize), Error>)
    requires
        pos <= data@.len(),
    ensures
        match r {
            Ok((v, j)) => parse_header_uint(data@, pos as int, term)
                == Ok::<(int, int), Error>((v as int, j as int))
                && pos < j <= data@.len()
                && v <= 0xFFFF,
            Err(e) => parse_header_uint(data@, pos as int, term) == Err::<(int, int), Error>(e),
        },
{
    match read_header_int(data, pos, term) {
        Ok((v, j)) => if v < 0 {
            Err(Error::NegativeNotAllowed)
        } else {
            Ok((v as u32, j))
        },
        Err(e) => Err(e),
    }
}

// ===================================================================== //
//  Hex fields                                                           //
// ===================================================================== //

/// Whether a byte is a hex digit of either case.
pub open spec fn is_hex_byte(b: u8) -> bool {
    (D0 <= b && b <= D9) || (LA <= b && b <= LF) || (UA <= b && b <= UF)
}

/// The value of a hex digit byte of either case.
pub open spec fn hex_val(b: u8) -> u8 {
    if D0 <= b && b <= D9 {
        (b - D0) as u8
    } else if LA <= b && b <= LF {
        (b - LA + 10) as u8
    } else {
        (b - UA + 10) as u8
    }
}

/// Consumes hex digit bytes of either case until the terminator, yielding
/// the digit values in order.
pub open spec fn parse_hex_digits(
    s: Seq<u8>,
    i: int,
    term: u8,
    acc: Seq<u8>,
) -> Result<(Seq<u8>, int), Error>
    decreases s.len() - i,
{
    if !(0 <= i < s.len()) {
        Err(Error::UnexpectedEnd)
    } else {
        let b = s[i];
        if b == term {
            Ok((acc, i + 1))
        } else if is_hex_byte(b) {
            parse_hex_digits(s, i + 1, term, acc.push(hex_val(b)))
        } else {
            Err(Error::InvalidDigit(b))
        }
    }
}

/// The number a sequence of hex digit values denotes, most significant first.
pub open spec fn hex_fold(ds: Seq<u8>) -> int
    decreases ds.len(),
{
    if ds.len() == 0 {
        0
    } else {
        hex_fold(ds.drop_last()) * 16 + ds.last()
    }
}

/// 16 to the power `n`.
pub open spec fn pow16(n: nat) -> int
    decreases n,
{
    if n == 0 {
        1
    } else {
        16 * pow16((n - 1) as nat)
    }
}

/// A hex field of one to eight digits terminated by `term`.
pub open spec fn parse_hex_u32(s: Seq<u8>, i: int, term: u8) -> Result<(int, int), Error> {
    match parse_hex_digits(s, i, term, Seq::<u8>::empty()) {
        Ok((ds, j)) => if ds.len() == 0 {
            Err(Error::MissingHexLiteral)
        } else if ds.len() > 8 {
            Err(Error::HexLiteralTooLarge)
        } else {
            Ok((hex_fold(ds), j))
        },
        Err(e) => Err(e),
    }
}

/// A successful hex-digit parse consumes at least the terminator and stays
/// inside the input, and its digit values are below sixteen if those already
/// accumulated are.
pub proof fn lemma_parse_hex_digits_ok(s: Seq<u8>, i: int, term: u8, acc: Seq<u8>)
    ensures
        match parse_hex_digits(s, i, term, acc) {
            Ok((ds, j)) => i < j <= s.len() && acc.len() <= ds.len()
                && ((forall|k: int| 0 <= k < acc.len() ==> acc[k] < 16)
                    ==> (forall|k: int| 0 <= k < ds.len() ==> ds[k] < 16)),
            Err(_) => true,
        },
    decreases s.len() - i,
{
    if 0 <= i < s.len() {
        let b = s[i];
        if b != term && is_hex_byte(b) {
            lemma_parse_hex_digits_ok(s, i + 1, term, acc.push(hex_val(b)));
        }
    }
}

/// A fold of digit values below sixteen stays below `pow16` of the length.
pub proof fn lemma_hex_fold_bound(ds: Seq<u8>)
    requires
        forall|k: int| 0 <= k < ds.len() ==> ds[k] < 16,
    ensures
        0 <= hex_fold(ds) < pow16(ds.len()),
    decreases ds.len(),
{
    if ds.len() > 0 {
        assert(forall|k: int| 0 <= k < ds.drop_last().len() ==> ds.drop_last()[k] < 16);
        lemma_hex_fold_bound(ds.drop_last());
    }
}

/// `pow16` grows with its argument.
pub proof fn lemma_pow16_le(a: nat, b: nat)
    requires
        a <= b,
    ensures
        pow16(a) <= pow16(b),
    decreases b,
{
    if a < b && b > 0 {
        lemma_pow16_le(a, (b - 1) as nat);
        assert(1 <= pow16((b - 1) as nat)) by {
            lemma_pow16_le(0, (b - 1) as nat);
        }
    }
}

/// Reads hex digit bytes of either case until `term`, yielding their values.
pub fn read_hex_digits(data: &[u8], pos: usize, term: u8) -> (r: Result<(Vec<u8>, usize), Error>)
    requires
        pos <= data@.len(),
    ensures
        match r {
            Ok((ds, j)) => parse_hex_digits(data@, pos as int, term, Seq::<u8>::empty())
                == Ok::<(Seq<u8>, int), Error>((ds@, j as int))
                && pos < j <= data@.len()
                && (forall|k: int| 0 <= k < ds@.len() ==> ds@[k] < 16),
            Err(e) => parse_hex_digits(data@, pos as int, term, Seq::<u8>::empty())
                == Err::<(Seq<u8>, int), Error>(e),
        },
{
    let mut acc: Vec<u8> = Vec::new();
    let mut i = pos;
    loop
        invariant
            pos <= i <= data@.len(),
            parse_hex_digits(data@, pos as int, term, Seq::<u8>::empty())
                == parse_hex_digits(data@, i as int, term, acc@),
            forall|k: int| 0 <= k < acc@.len() ==> acc@[k] < 16,
            i > pos || acc@.len() == 0,
        decreases data@.len() - i,
    {
        if i >= data.len() {
            return Err(Error::UnexpectedEnd);
        }
        let b = data[i];
        if b == term {
            return Ok((acc, i + 1));
        }
        let d: u8 = if D0 <= b && b <= D9 {
            b - D0
        } else if LA <= b && b <= LF {
            b - LA + 10
        } else if UA <= b && b <= UF {
            b - UA + 10
        } else {
            return Err(Error::InvalidDigit(b));
        };
        acc.push(d);
        i = i + 1;
    }
}

/// Reads a hex field of one to eight digits terminated by `term`.
pub fn read_hex_u32(data: &[u8], pos: usize, term: u8) -> (r: Result<(u32, usize), Error>)
    requires
        pos <= data@.len(),
    ensures
        match r {
            Ok((v, j)) => parse_hex_u32(data@, pos as int, term)
                == Ok::<(int, int), Error>((v as int, j as int))
                && pos < j <= data@.len(),
            Err(e) => parse_hex_u32(data@, pos as int, term) == Err::<(int, int), Error>(e),
        },
{
    let (ds, j) = match read_hex_digits(data, pos, term) {
        Ok(p) => p,
        Err(e) => return Err(e),
    };
    if ds.len() == 0 {
        return Err(Error::MissingHexLiteral);
    }
    if ds.len() > 8 {
        return Err(Error::HexLiteralTooLarge);
    }
    let mut v: u32 = 0;
    let mut k: usize = 0;
    while k < ds.len()
        invariant
            k <= ds.len() <= 8,
            forall|m: int| 0 <= m < ds@.len() ==> ds@[m] < 16,
            v == hex_fold(ds@.subrange(0, k as int)),
        decreases ds.len() - k,
    {
        proof {
            lemma_hex_fold_bound(ds@.subrange(0, k as int));
            lemma_pow16_le(k as nat, 7);
            reveal_with_fuel(pow16, 8);
            assert(pow16(7) == 0x10000000);
            assert(ds@.subrange(0, k + 1).drop_last() =~= ds@.subrange(0, k as int));
        }
        v = v * 16 + ds[k] as u32;
        k = k + 1;
    }
    proof {
        assert(ds@.subrange(0, ds@.len() as int) =~= ds@);
    }
    Ok((v, j))
}

// ===================================================================== //
//  Splitting a matched region                                           //
// ===================================================================== //

/// A region of the input equal to a concatenation splits into two regions
/// equal to the parts.
pub proof fn lemma_subrange_split(s: Seq<u8>, i: int, e1: Seq<u8>, e2: Seq<u8>)
    requires
        0 <= i,
        i + e1.len() + e2.len() <= s.len(),
        s.subrange(i, i + e1.len() + e2.len()) == e1 + e2,
    ensures
        s.subrange(i, i + e1.len()) == e1,
        s.subrange(i + e1.len(), i + e1.len() + e2.len()) == e2,
{
    let l1 = e1.len() as int;
    let l2 = e2.len() as int;
    assert(s.subrange(i, i + l1) =~= e1) by {
        assert forall|k: int| 0 <= k < l1
            implies #[trigger] s.subrange(i, i + l1)[k] == e1[k] by {
            assert(s.subrange(i, i + l1 + l2)[k] == (e1 + e2)[k]);
            assert(s.subrange(i, i + l1)[k] == s[i + k]);
            assert(s.subrange(i, i + l1 + l2)[k] == s[i + k]);
        }
    }
    assert(s.subrange(i + l1, i + l1 + l2) =~= e2) by {
        assert forall|k: int| 0 <= k < l2
            implies #[trigger] s.subrange(i + l1, i + l1 + l2)[k] == e2[k] by {
            assert(s.subrange(i, i + l1 + l2)[k + l1] == (e1 + e2)[k + l1]);
            assert(s.subrange(i + l1, i + l1 + l2)[k] == s[i + l1 + k]);
            assert(s.subrange(i, i + l1 + l2)[k + l1] == s[i + (k + l1)]);
        }
    }
}

/// A single byte of a matched region.
pub proof fn lemma_subrange_index(s: Seq<u8>, i: int, e: Seq<u8>, k: int)
    requires
        0 <= i,
        i + e.len() <= s.len(),
        s.subrange(i, i + e.len()) == e,
        0 <= k < e.len(),
    ensures
        s[i + k] == e[k],
{
    assert(s.subrange(i, i + e.len() as int)[k] == e[k]);
}

// ===================================================================== //
//  Printers                                                             //
// ===================================================================== //

/// 10 to the power `n`.
pub open spec fn pow10(n: nat) -> int
    decreases n,
{
    if n == 0 {
        1
    } else {
        10 * pow10((n - 1) as nat)
    }
}

/// The decimal digit bytes of a nonnegative number, most significant first.
pub open spec fn dec_digits(n: int) -> Seq<u8>
    recommends
        n >= 0,
    decreases n,
{
    if n < 10 {
        seq![(D0 + if n < 0 { 0 } else { n }) as u8]
    } else {
        dec_digits(n / 10).push((D0 + n % 10) as u8)
    }
}

/// The decimal form of a signed number: a minus sign for negative values,
/// then the digits of the magnitude.
pub open spec fn enc_dec_int(v: int) -> Seq<u8> {
    if v < 0 {
        seq![MINUS] + dec_digits(-v)
    } else {
        dec_digits(v)
    }
}

/// The uppercase byte of a hex digit value.
pub open spec fn hex_upper_byte(d: int) -> u8 {
    if d < 10 {
        (D0 + d) as u8
    } else {
        (UA + d - 10) as u8
    }
}

/// The lowercase byte of a hex digit value.
pub open spec fn hex_lower_byte(d: int) -> u8 {
    if d < 10 {
        (D0 + d) as u8
    } else {
        (LA + d - 10) as u8
    }
}

/// The hex digit values of a nonnegative number, most significant first.
pub open spec fn hex_digits_int(n: int) -> Seq<u8>
    recommends
        n >= 0,
    decreases n,
{
    if n < 16 {
        seq![if n < 0 { 0u8 } else { n as u8 }]
    } else {
        hex_digits_int(n / 16).push((n % 16) as u8)
    }
}

/// The uppercase hex form of a nonnegative number.
pub open spec fn enc_hex_upper(n: int) -> Seq<u8>
    recommends
        n >= 0,
    decreases n,
{
    if n < 16 {
        seq![hex_upper_byte(if n < 0 { 0 } else { n })]
    } else {
        enc_hex_upper(n / 16).push(hex_upper_byte(n % 16))
    }
}

/// The lowercase hex form of a nonnegative number.
pub open spec fn enc_hex_lower(n: int) -> Seq<u8>
    recommends
        n >= 0,
    decreases n,
{
    if n < 16 {
        seq![hex_lower_byte(if n < 0 { 0 } else { n })]
    } else {
        enc_hex_lower(n / 16).push(hex_lower_byte(n % 16))
    }
}

/// Appends the decimal digits of `n`.
pub fn write_dec_u32(out: &mut Vec<u8>, n: u32)
    ensures
        final(out)@ == old(out)@ + dec_digits(n as int),
{
    if n == 0 {
        out.push(D0);
        proof {
            assert(old(out)@.push(D0) =~= old(out)@ + dec_digits(0));
        }
        return;
    }
    let mut tmp: Vec<u8> = Vec::new();
    let mut m = n;
    while m > 0
        invariant
            dec_digits(n as int) == if m > 0 {
                dec_digits(m as int) + tmp@
            } else {
                tmp@
            },
        decreases m,
    {
        let d: u8 = (m % 10) as u8;
        proof {
            if m >= 10 {
                assert(dec_digits(m as int) + tmp@
                    =~= dec_digits(m as int / 10) + (seq![(D0 + m as int % 10) as u8] + tmp@));
            } else {
                assert(dec_digits(m as int) + tmp@ =~= seq![(D0 + m as int % 10) as u8] + tmp@);
            }
        }
        let ghost t0 = tmp@;
        tmp.insert(0, D0 + d);
        proof {
            assert(tmp@ =~= seq![(D0 + d) as u8] + t0);
        }
        m = m / 10;
    }
    let ghost pre = out@;
    out.append(&mut tmp);
    proof {
        assert(final(out)@ =~= pre + dec_digits(n as int));
    }
}

/// Appends the decimal form of a signed number.
pub fn write_dec_i32(out: &mut Vec<u8>, v: i32)
    ensures
        final(out)@ == old(out)@ + enc_dec_int(v as int),
{
    if v < 0 {
        out.push(MINUS);
        let m: u32 = (-(v as i64)) as u32;
        write_dec_u32(out, m);
        proof {
            assert(old(out)@.push(MINUS) + dec_digits(m as int)
                =~= old(out)@ + (seq![MINUS] + dec_digits(-(v as int))));
        }
    } else {
        write_dec_u32(out, v as u32);
    }
}

/// Appends the uppercase hex digits of `n`.
pub fn write_hex_u32(out: &mut Vec<u8>, n: u32)
    ensures
        final(out)@ == old(out)@ + enc_hex_upper(n as int),
{
    if n == 0 {
        out.push(D0);
        proof {
            assert(old(out)@.push(D0) =~= old(out)@ + enc_hex_upper(0));
        }
        return;
    }
    let mut tmp: Vec<u8> = Vec::new();
    let mut m = n;
    while m > 0
        invariant
            enc_hex_upper(n as int) == if m > 0 {
                enc_hex_upper(m as int) + tmp@
            } else {
                tmp@
            },
        decreases m,
    {
        let dv: u8 = (m % 16) as u8;
        let d: u8 = if dv < 10 {
            D0 + dv
        } else {
            UA + (dv - 10)
        };
        proof {
            assert(d == hex_upper_byte(m as int % 16));
            if m >= 16 {
                assert(enc_hex_upper(m as int) + tmp@
                    =~= enc_hex_upper(m as int / 16) + (seq![hex_upper_byte(m as int % 16)] + tmp@));
            } else {
                assert(enc_hex_upper(m as int) + tmp@
                    =~= seq![hex_upper_byte(m as int % 16)] + tmp@);
            }
        }
        let ghost t0 = tmp@;
        tmp.insert(0, d);
        proof {
            assert(tmp@ =~= seq![d] + t0);
        }
        m = m / 16;
    }
    let ghost pre = out@;
    out.append(&mut tmp);
    proof {
        assert(final(out)@ =~= pre + enc_hex_upper(n as int));
    }
}

/// Appends the lowercase hex digits of `n`.
pub fn write_hex_lower_u32(out: &mut Vec<u8>, n: u32)
    ensures
        final(out)@ == old(out)@ + enc_hex_lower(n as int),
{
    if n == 0 {
        out.push(D0);
        proof {
            assert(old(out)@.push(D0) =~= old(out)@ + enc_hex_lower(0));
        }
        return;
    }
    let mut tmp: Vec<u8> = Vec::new();
    let mut m = n;
    while m > 0
        invariant
            enc_hex_lower(n as int) == if m > 0 {
                enc_hex_lower(m as int) + tmp@
            } else {
                tmp@
            },
        decreases m,
    {
        let dv: u8 = (m % 16) as u8;
        let d: u8 = if dv < 10 {
            D0 + dv
        } else {
            LA + (dv - 10)
        };
        proof {
            assert(d == hex_lower_byte(m as int % 16));
            if m >= 16 {
                assert(enc_hex_lower(m as int) + tmp@
                    =~= enc_hex_lower(m as int / 16) + (seq![hex_lower_byte(m as int % 16)] + tmp@));
            } else {
                assert(enc_hex_lower(m as int) + tmp@
                    =~= seq![hex_lower_byte(m as int % 16)] + tmp@);
            }
        }
        let ghost t0 = tmp@;
        tmp.insert(0, d);
        proof {
            assert(tmp@ =~= seq![d] + t0);
        }
        m = m / 16;
    }
    let ghost pre = out@;
    out.append(&mut tmp);
    proof {
        assert(final(out)@ =~= pre + enc_hex_lower(n as int));
    }
}

// ===================================================================== //
//  Round trips                                                          //
// ===================================================================== //

/// Every byte of a printed decimal number is a digit.
pub proof fn lemma_dec_digits_are_digits(n: int)
    requires
        n >= 0,
    ensures
        forall|k: int| 0 <= k < dec_digits(n).len()
            ==> D0 <= #[trigger] dec_digits(n)[k] <= D9,
    decreases n,
{
    if n < 10 {
        assert(dec_digits(n) == seq![(D0 + n) as u8]);
        assert(dec_digits(n)[0] == D0 + n);
    } else {
        lemma_dec_digits_are_digits(n / 10);
        let hd = dec_digits(n / 10);
        assert(dec_digits(n) == hd.push((D0 + n % 10) as u8));
        assert forall|k: int| 0 <= k < dec_digits(n).len()
            implies D0 <= #[trigger] dec_digits(n)[k] <= D9 by {
            if k < hd.len() {
                assert(dec_digits(n)[k] == hd[k]);
            } else {
                assert(dec_digits(n)[k] == D0 + n % 10);
            }
        }
    }
}

/// Consuming the printed digits of `n` folds them onto the accumulator.
pub proof fn lemma_parse_dec_run(s: Seq<u8>, i: int, term: u8, neg: bool, any: bool, acc: int, n: int)
    requires
        0 <= n,
        0 <= acc,
        acc * pow10(dec_digits(n).len()) + n <= MAX_HEADER_VALUE,
        0 <= i,
        i + dec_digits(n).len() <= s.len(),
        s.subrange(i, i + dec_digits(n).len()) == dec_digits(n),
        term < D0 || term > D9,
    ensures
        parse_dec(s, i, term, neg, any, acc)
            == parse_dec(s, i + dec_digits(n).len(), term, neg, true,
                acc * pow10(dec_digits(n).len()) + n),
    decreases n,
{
    let dd = dec_digits(n);
    let l = dd.len() as int;
    lemma_dec_digits_are_digits(n);
    lemma_pow10_pos(dd.len());
    if n < 10 {
        assert(dd == seq![(D0 + n) as u8]);
        assert(s.subrange(i, i + l)[0] == dd[0]);
        assert(s[i] == D0 + n);
        assert(pow10(1) == 10) by {
            reveal_with_fuel(pow10, 2);
        }
        assert(s[i] != term && s[i] != MINUS);
        assert(parse_dec(s, i, term, neg, any, acc)
            == parse_dec(s, i + 1, term, neg, true, acc * 10 + n));
    } else {
        let hd = dec_digits(n / 10);
        let lh = hd.len() as int;
        assert(dd == hd.push((D0 + n % 10) as u8));
        assert(l == lh + 1);
        assert(s.subrange(i, i + lh) =~= hd) by {
            assert forall|k: int| 0 <= k < lh
                implies #[trigger] s.subrange(i, i + lh)[k] == hd[k] by {
                assert(s.subrange(i, i + l)[k] == dd[k]);
                assert(s[i + k] == dd[k]);
                assert(dd[k] == hd[k]);
            }
        }
        lemma_pow10_pos(hd.len());
        let ph = pow10(hd.len());
        let pd = pow10(dd.len());
        assert(pd == 10 * ph);
        let nd = n / 10;
        let nm = n % 10;
        let acc2 = acc * ph + nd;
        assert(n == 10 * nd + nm);
        assert(acc2 * 10 + nm == acc * pd + n) by (nonlinear_arith)
            requires
                acc2 == acc * ph + nd,
                pd == 10 * ph,
                n == 10 * nd + nm,
        {}
        assert(acc2 >= 0) by (nonlinear_arith)
            requires
                acc >= 0,
                ph >= 1,
                nd >= 0,
                acc2 == acc * ph + nd,
        {}
        lemma_parse_dec_run(s, i, term, neg, any, acc, nd);
        let b = s[i + lh];
        assert(s.subrange(i, i + l)[lh] == dd[lh]);
        assert(b == dd[lh]);
        assert(dd[lh] == D0 + nm);
        assert(b != term && b != MINUS);
        assert(parse_dec(s, i + lh, term, neg, true, acc2)
            == parse_dec(s, i + l, term, neg, true, acc2 * 10 + (b - D0)));
        assert(acc2 * 10 + (b - D0) == acc * pd + n);
    }
}

/// `pow10` is positive.
pub proof fn lemma_pow10_pos(n: nat)
    ensures
        pow10(n) >= 1,
    decreases n,
{
    if n > 0 {
        lemma_pow10_pos((n - 1) as nat);
    }
}

/// Parsing the printed form of a signed value within the header cap, followed
/// by its terminator, gives the value back.
pub proof fn lemma_parse_dec_of_enc(s: Seq<u8>, i: int, v: int, term: u8)
    requires
        -0xFFFF <= v <= 0xFFFF,
        term < D0 || term > D9,
        term != MINUS,
        0 <= i,
        i + enc_dec_int(v).len() < s.len(),
        s.subrange(i, i + enc_dec_int(v).len()) == enc_dec_int(v),
        s[i + enc_dec_int(v).len()] == term,
    ensures
        parse_header_int(s, i, term)
            == Ok::<(int, int), Error>((v, i + enc_dec_int(v).len() + 1)),
{
    if v >= 0 {
        let l = dec_digits(v).len() as int;
        lemma_pow10_pos(dec_digits(v).len());
        lemma_parse_dec_run(s, i, term, false, false, 0, v);
        assert(0 * pow10(dec_digits(v).len()) + v == v);
        assert(parse_dec(s, i + l, term, false, true, v)
            == Ok::<(int, int), Error>((v, i + l + 1)));
    } else {
        let m = -v;
        let dd = dec_digits(m);
        let l = dd.len() as int;
        let e = enc_dec_int(v);
        assert(e == seq![MINUS] + dd);
        assert(s.subrange(i, i + l + 1)[0] == e[0]);
        assert(s[i] == MINUS);
        assert(MINUS != term && (MINUS < D0 || MINUS > D9));
        assert(parse_dec(s, i, term, false, false, 0)
            == parse_dec(s, i + 1, term, true, false, 0));
        assert(s.subrange(i + 1, i + 1 + l) =~= dd) by {
            assert forall|k: int| 0 <= k < l
                implies #[trigger] s.subrange(i + 1, i + 1 + l)[k] == dd[k] by {
                assert(s.subrange(i, i + l + 1)[k + 1] == e[k + 1]);
                assert(s[i + (k + 1)] == e[k + 1]);
                assert(e[k + 1] == dd[k]);
                assert(s.subrange(i + 1, i + 1 + l)[k] == s[i + 1 + k]);
            }
        }
        lemma_pow10_pos(dd.len());
        lemma_parse_dec_run(s, i + 1, term, true, false, 0, m);
        assert(0 * pow10(dd.len()) + m == m);
        assert(s[i + 1 + l] == term);
        assert(parse_dec(s, i + 1 + l, term, true, true, m)
            == Ok::<(int, int), Error>((-m, i + 1 + l + 1)));
    }
}

/// Parsing the printed form of a nonnegative value within the header cap,
/// followed by its terminator, gives the value back.
pub proof fn lemma_parse_uint_of_enc(s: Seq<u8>, i: int, v: int, term: u8)
    requires
        0 <= v <= 0xFFFF,
        term < D0 || term > D9,
        term != MINUS,
        0 <= i,
        i + dec_digits(v).len() < s.len(),
        s.subrange(i, i + dec_digits(v).len()) == dec_digits(v),
        s[i + dec_digits(v).len()] == term,
    ensures
        parse_header_uint(s, i, term)
            == Ok::<(int, int), Error>((v, i + dec_digits(v).len() + 1)),
{
    lemma_parse_dec_of_enc(s, i, v, term);
}

/// Consuming hex digit bytes whose values are `ds`, then the terminator,
/// appends `ds` to the accumulator.
pub proof fn lemma_parse_hex_digits_run(s: Seq<u8>, i: int, term: u8, acc: Seq<u8>, ds: Seq<u8>)
    requires
        0 <= i,
        i + ds.len() < s.len(),
        forall|k: int| 0 <= k < ds.len()
            ==> is_hex_byte(#[trigger] s[i + k]) && hex_val(s[i + k]) == ds[k],
        s[i + ds.len()] == term,
        !is_hex_byte(term),
    ensures
        parse_hex_digits(s, i, term, acc)
            == Ok::<(Seq<u8>, int), Error>((acc + ds, i + ds.len() + 1)),
    decreases ds.len(),
{
    if ds.len() == 0 {
        assert(s[i] == term);
        assert(acc + ds =~= acc);
    } else {
        assert(is_hex_byte(s[i + 0]) && hex_val(s[i + 0]) == ds[0]);
        assert(is_hex_byte(s[i]) && hex_val(s[i]) == ds[0]);
        assert(s[i] != term);
        let tl = ds.drop_first();
        assert forall|k: int| 0 <= k < tl.len()
            implies is_hex_byte(#[trigger] s[i + 1 + k]) && hex_val(s[i + 1 + k]) == tl[k] by {
            assert(s[i + (k + 1)] == s[i + 1 + k]);
            assert(is_hex_byte(s[i + (k + 1)]) && hex_val(s[i + (k + 1)]) == ds[k + 1]);
            assert(tl[k] == ds[k + 1]);
        }
        assert(s[i + 1 + tl.len()] == term);
        lemma_parse_hex_digits_run(s, i + 1, term, acc.push(ds[0]), tl);
        assert(acc.push(ds[0]) + tl =~= acc + ds);
    }
}

/// The digit values of a printed hex number fold back to the number.
pub proof fn lemma_hex_fold_digits(n: int)
    requires
        n >= 0,
    ensures
        hex_fold(hex_digits_int(n)) == n,
        hex_digits_int(n).len() >= 1,
        forall|k: int| 0 <= k < hex_digits_int(n).len() ==> #[trigger] hex_digits_int(n)[k] < 16,
    decreases n,
{
    if n < 16 {
        let ds = hex_digits_int(n);
        assert(ds == seq![n as u8]);
        assert(ds[0] == n);
        assert(ds.last() == n);
        assert(ds.drop_last() =~= Seq::<u8>::empty());
        assert(hex_fold(Seq::<u8>::empty()) == 0);
    } else {
        lemma_hex_fold_digits(n / 16);
        let hd = hex_digits_int(n / 16);
        let ds = hex_digits_int(n);
        assert(ds == hd.push((n % 16) as u8));
        assert(ds.drop_last() =~= hd);
        assert forall|k: int| 0 <= k < ds.len() implies #[trigger] ds[k] < 16 by {
            if k < hd.len() {
                assert(ds[k] == hd[k]);
            } else {
                assert(ds[k] == n % 16);
            }
        }
    }
}

/// A number below `pow16(l)` prints as at most `l` hex digits.
pub proof fn lemma_hex_digits_len(n: int, l: nat)
    requires
        0 <= n < pow16(l),
        l >= 1,
    ensures
        hex_digits_int(n).len() <= l,
    decreases n,
{
    if n >= 16 {
        assert(pow16(l) == 16 * pow16((l - 1) as nat));
        lemma_hex_digits_len(n / 16, (l - 1) as nat);
    }
}

/// The uppercase print of a hex number carries exactly its digit values.
pub proof fn lemma_enc_hex_upper_vals(n: int)
    requires
        n >= 0,
    ensures
        enc_hex_upper(n).len() == hex_digits_int(n).len(),
        forall|k: int| 0 <= k < enc_hex_upper(n).len()
            ==> is_hex_byte(#[trigger] enc_hex_upper(n)[k])
                && hex_val(enc_hex_upper(n)[k]) == hex_digits_int(n)[k],
    decreases n,
{
    if n >= 16 {
        lemma_enc_hex_upper_vals(n / 16);
    }
}

/// The lowercase print of a hex number carries exactly its digit values.
pub proof fn lemma_enc_hex_lower_vals(n: int)
    requires
        n >= 0,
    ensures
        enc_hex_lower(n).len() == hex_digits_int(n).len(),
        forall|k: int| 0 <= k < enc_hex_lower(n).len()
            ==> is_hex_byte(#[trigger] enc_hex_lower(n)[k])
                && hex_val(enc_hex_lower(n)[k]) == hex_digits_int(n)[k],
    decreases n,
{
    if n >= 16 {
        lemma_enc_hex_lower_vals(n / 16);
    }
}

/// Parsing a region of hex digit bytes with values `ds` (one to eight of
/// them), then the terminator, yields the folded number.
pub proof fn lemma_parse_hex_u32_of_digit_bytes(s: Seq<u8>, i: int, term: u8, ds: Seq<u8>)
    requires
        0 <= i,
        i + ds.len() < s.len(),
        forall|k: int| 0 <= k < ds.len()
            ==> is_hex_byte(#[trigger] s[i + k]) && hex_val(s[i + k]) == ds[k],
        s[i + ds.len()] == term,
        !is_hex_byte(term),
        1 <= ds.len() <= 8,
    ensures
        parse_hex_u32(s, i, term)
            == Ok::<(int, int), Error>((hex_fold(ds), i + ds.len() + 1)),
{
    lemma_parse_hex_digits_run(s, i, term, Seq::<u8>::empty(), ds);
    assert(Seq::<u8>::empty() + ds =~= ds);
}

/// Parsing the uppercase hex print of a number below 2^32, followed by its
/// terminator, gives the number back.
pub proof fn lemma_parse_hex_of_enc_upper(s: Seq<u8>, i: int, n: int, term: u8)
    requires
        0 <= n < 0x100000000,
        !is_hex_byte(term),
        0 <= i,
        i + enc_hex_upper(n).len() < s.len(),
        s.subrange(i, i + enc_hex_upper(n).len()) == enc_hex_upper(n),
        s[i + enc_hex_upper(n).len()] == term,
    ensures
        parse_hex_u32(s, i, term)
            == Ok::<(int, int), Error>((n, i + enc_hex_upper(n).len() + 1)),
{
    let ds = hex_digits_int(n);
    lemma_enc_hex_upper_vals(n);
    lemma_hex_fold_digits(n);
    assert(pow16(8) == 0x100000000) by {
        reveal_with_fuel(pow16, 9);
    }
    lemma_hex_digits_len(n, 8);
    let e = enc_hex_upper(n);
    assert forall|k: int| 0 <= k < ds.len()
        implies is_hex_byte(#[trigger] s[i + k]) && hex_val(s[i + k]) == ds[k] by {
        assert(s.subrange(i, i + e.len())[k] == e[k]);
        assert(s[i + k] == e[k]);
    }
    lemma_parse_hex_u32_of_digit_bytes(s, i, term, ds);
}

/// Parsing the lowercase hex print of a number below 2^32, followed by its
/// terminator, gives the number back.
pub proof fn lemma_parse_hex_of_enc_lower(s: Seq<u8>, i: int, n: int, term: u8)
    requires
        0 <= n < 0x100000000,
        !is_hex_byte(term),
        0 <= i,
        i + enc_hex_lower(n).len() < s.len(),
        s.subrange(i, i + enc_hex_lower(n).len()) == enc_hex_lower(n),
        s[i + enc_hex_lower(n).len()] == term,
    ensures
        parse_hex_u32(s, i, term)
            == Ok::<(int, int), Error>((n, i + enc_hex_lower(n).len() + 1)),
{
    let ds = hex_digits_int(n);
    lemma_enc_hex_lower_vals(n);
    lemma_hex_fold_digits(n);
    assert(pow16(8) == 0x100000000) by {
        reveal_with_fuel(pow16, 9);
    }
    lemma_hex_digits_len(n, 8);
    let e = enc_hex_lower(n);
    assert forall|k: int| 0 <= k < ds.len()
        implies is_hex_byte(#[trigger] s[i + k]) && hex_val(s[i + k]) == ds[k] by {
        assert(s.subrange(i, i + e.len())[k] == e[k]);
        assert(s[i + k] == e[k]);
    }
    lemma_parse_hex_u32_of_digit_bytes(s, i, term, ds);
}

} // verus!
