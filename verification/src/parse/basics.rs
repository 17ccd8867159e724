//! Readers for numbers written in decimal in byte strings, alone or
//! between optional whitespace.
use vstd::prelude::*;
use vstd::slice::slice_subrange;

verus! {

/// Space, tab, carriage return or line feed.
pub open spec fn is_space_byte(b: u8) -> bool {
    b == 32 || b == 9 || b == 13 || b == 10
}

/// An ASCII decimal digit.
pub open spec fn is_digit_byte(b: u8) -> bool {
    48 <= b && b <= 57
}

/// The length of the run of whitespace that `s` starts with.
pub open spec fn ws_len(s: Seq<u8>) -> nat
    decreases s.len(),
{
    if s.len() > 0 && is_space_byte(s[0]) {
        1 + ws_len(s.drop_first())
    } else {
        0
    }
}

/// The length of the run of digits that `s` starts with.
pub open spec fn digits_len(s: Seq<u8>) -> nat
    decreases s.len(),
{
    if s.len() > 0 && is_digit_byte(s[0]) {
        1 + digits_len(s.drop_first())
    } else {
        0
    }
}

/// The number written in decimal by the digits `s`.
pub open spec fn number_value(s: Seq<u8>) -> int
    decreases s.len(),
{
    if s.len() == 0 {
        0
    } else {
        number_value(s.drop_last()) * 10 + (s.last() - 48)
    }
}

/// Where the number starts: after the leading whitespace, if it is skipped.
pub open spec fn lead(s: Seq<u8>, ws: bool) -> int {
    if ws {
        ws_len(s) as int
    } else {
        0
    }
}

/// The number has a sign: `-` or, for a signed reader, `+`.
pub open spec fn has_sign(s: Seq<u8>, ws: bool, signed: bool) -> bool {
    let a = lead(s, ws);
    signed && a < s.len() && (s[a] == 45 || s[a] == 43)
}

/// Where the digits start.
pub open spec fn digits_start(s: Seq<u8>, ws: bool, signed: bool) -> int {
    if has_sign(s, ws, signed) {
        lead(s, ws) + 1
    } else {
        lead(s, ws)
    }
}

/// Where the digits end.
pub open spec fn digits_end(s: Seq<u8>, ws: bool, signed: bool) -> int {
    let b = digits_start(s, ws, signed);
    b + digits_len(s.skip(b))
}

/// The value of the digits, without the sign.
pub open spec fn magnitude(s: Seq<u8>, ws: bool, signed: bool) -> int {
    number_value(s.subrange(digits_start(s, ws, signed), digits_end(s, ws, signed)))
}

/// Reading a number from the start of `s` (optional whitespace when `ws`,
/// an optional sign when `signed`, a run of digits, optional whitespace
/// when `ws`): the number of bytes read and the number, or `None` where
/// there is no digit.
pub open spec fn number_read(s: Seq<u8>, ws: bool, signed: bool) -> Option<(int, int)> {
    let b = digits_start(s, ws, signed);
    let e = digits_end(s, ws, signed);
    let m = magnitude(s, ws, signed);
    if e == b {
        None
    } else {
        Some(
            (
                if ws {
                    e + ws_len(s.skip(e))
                } else {
                    e
                },
                if has_sign(s, ws, signed) && s[lead(s, ws)] == 45 {
                    -m
                } else {
                    m
                },
            ),
        )
    }
}

/// The index of the first byte at or after `start` that is not whitespace.
fn skip_ws(s: &[u8], start: usize) -> (end: usize)
    requires
        start <= s@.len(),
    ensures
        end == start + ws_len(s@.skip(start as int)),
        end <= s@.len(),
{
    let mut i = start;
    while i < s.len() && (s[i] == 32 || s[i] == 9 || s[i] == 13 || s[i] == 10)
        invariant
            start <= i <= s@.len(),
            ws_len(s@.skip(start as int)) == (i - start) + ws_len(s@.skip(i as int)),
        decreases s@.len() - i,
    {
        proof {
            assert(s@.skip(i as int).drop_first() =~= s@.skip(i + 1));
        }
        i += 1;
    }
    i
}

/// Reads the run of digits at `start`: where it ends, and its value unless
/// that exceeds `max`.
fn scan_digits(s: &[u8], start: usize, max: u64) -> (r: (usize, Option<u64>))
    requires
        start <= s@.len(),
    ensures
        r.0 == start + digits_len(s@.skip(start as int)),
        r.0 <= s@.len(),
        match r.1 {
            Some(v) => v == number_value(s@.subrange(start as int, r.0 as int)) && v <= max,
            None => number_value(s@.subrange(start as int, r.0 as int)) > max,
        },
{
    let mut i = start;
    let mut value: u64 = 0;
    let mut fits = true;
    while i < s.len() && 48 <= s[i] && s[i] <= 57
        invariant
            start <= i <= s@.len(),
            digits_len(s@.skip(start as int)) == (i - start) + digits_len(s@.skip(i as int)),
            number_value(s@.subrange(start as int, i as int)) >= 0,
            fits ==> value == number_value(s@.subrange(start as int, i as int)) && value <= max,
            !fits ==> number_value(s@.subrange(start as int, i as int)) > max,
        decreases s@.len() - i,
    {
        proof {
            assert(s@.skip(i as int).drop_first() =~= s@.skip(i + 1));
            assert(s@.subrange(start as int, i + 1).drop_last() =~= s@.subrange(
                start as int,
                i as int,
            ));
        }
        let d = s[i] - 48;
        if fits {
            let v = value as u128 * 10 + d as u128;
            if v <= max as u128 {
                value = v as u64;
            } else {
                fits = false;
            }
        }
        i += 1;
    }
    (i, if fits {
        Some(value)
    } else {
        None
    })
}

/// Reads a number from the start of `s`: where reading ended, whether the
/// number is negative, and its magnitude.
fn read_number(s: &[u8], ws: bool, signed: bool, max: u64) -> (r: Result<(usize, bool, u64), ()>)
    requires
        magnitude(s@, ws, signed) <= max,
    ensures
        match number_read(s@, ws, signed) {
            Some((k, v)) => r matches Ok((end, neg, m)) && end == k && m == magnitude(s@, ws, signed)
                && (if neg {
                -m
            } else {
                m as int
            }) == v && (neg ==> m > 0 || v == 0),
            None => r is Err,
        },
        r matches Ok((end, _, _)) ==> end <= s@.len(),
{
    let mut i: usize = 0;
    proof {
        assert(s@.skip(0) =~= s@);
    }
    if ws {
        i = skip_ws(s, 0);
    }
    let mut neg = false;
    if signed && i < s.len() && (s[i] == 45 || s[i] == 43) {
        neg = s[i] == 45;
        i += 1;
    }
    let b = i;
    let (e, v) = scan_digits(s, b, max);
    if e == b {
        return Err(());
    }
    let m = match v {
        Some(m) => m,
        None => {
            return vstd::pervasive::unreached();
        },
    };
    let end = if ws {
        skip_ws(s, e)
    } else {
        e
    };
    Ok((end, neg, m))
}

/// Reads an unsigned 32-bit number between optional whitespace from the
/// start of `input`: the rest of the input and the number.  Fails where
/// there is no digit.  The digits must denote a number that fits.
pub fn ws_u32(input: &[u8]) -> (r: Result<(&[u8], u32), ()>)
    requires
        magnitude(input@, true, false) <= u32::MAX,
    ensures
        match number_read(input@, true, false) {
            Some((k, v)) => r matches Ok((rest, n)) && n == v && rest@ == input@.skip(k),
            None => r is Err,
        },
{
    match read_number(input, true, false, 0xffff_ffff) {
        Ok((end, _, m)) => Ok((slice_subrange(input, end, input.len()), m as u32)),
        Err(()) => Err(()),
    }
}

/// Reads an unsigned 64-bit number between optional whitespace from the
/// start of `input`: the rest of the input and the number.  Fails where
/// there is no digit.  The digits must denote a number that fits.
pub fn ws_u64(input: &[u8]) -> (r: Result<(&[u8], u64), ()>)
    requires
        magnitude(input@, true, false) <= u64::MAX,
    ensures
        match number_read(input@, true, false) {
            Some((k, v)) => r matches Ok((rest, n)) && n == v && rest@ == input@.skip(k),
            None => r is Err,
        },
{
    match read_number(input, true, false, 0xffff_ffff_ffff_ffff) {
        Ok((end, _, m)) => Ok((slice_subrange(input, end, input.len()), m)),
        Err(()) => Err(()),
    }
}

/// Reads an unsigned `usize` number between optional whitespace from the
/// start of `input`: the rest of the input and the number.  Fails where
/// there is no digit.  The digits must denote a number that fits.
pub fn ws_usize(input: &[u8]) -> (r: Result<(&[u8], usize), ()>)
    requires
        magnitude(input@, true, false) <= usize::MAX,
    ensures
        match number_read(input@, true, false) {
            Some((k, v)) => r matches Ok((rest, n)) && n == v && rest@ == input@.skip(k),
            None => r is Err,
        },
{
    match read_number(input, true, false, usize::MAX as u64) {
        Ok((end, _, m)) => Ok((slice_subrange(input, end, input.len()), m as usize)),
        Err(()) => Err(()),
    }
}

/// Reads a signed 32-bit number, with an optional sign, between optional
/// whitespace from the start of `input`: the rest of the input and the
/// number.  Fails where there is no digit.  The digits must denote a number
/// that fits in the type's positive range.
pub fn ws_i32(input: &[u8]) -> (r: Result<(&[u8], i32), ()>)
    requires
        magnitude(input@, true, true) <= i32::MAX,
    ensures
        match number_read(input@, true, true) {
            Some((k, v)) => r matches Ok((rest, n)) && n == v && rest@ == input@.skip(k),
            None => r is Err,
        },
{
    match read_number(input, true, true, 0x7fff_ffff) {
        Ok((end, neg, m)) => {
            let v = if neg {
                -(m as i32)
            } else {
                m as i32
            };
            Ok((slice_subrange(input, end, input.len()), v))
        },
        Err(()) => Err(()),
    }
}

/// Reads a signed 64-bit number, with an optional sign, between optional
/// whitespace from the start of `input`: the rest of the input and the
/// number.  Fails where there is no digit.  The digits must denote a number
/// that fits in the type's positive range.
pub fn ws_i64(input: &[u8]) -> (r: Result<(&[u8], i64), ()>)
    requires
        magnitude(input@, true, true) <= i64::MAX,
    ensures
        match number_read(input@, true, true) {
            Some((k, v)) => r matches Ok((rest, n)) && n == v && rest@ == input@.skip(k),
            None => r is Err,
        },
{
    match read_number(input, true, true, 0x7fff_ffff_ffff_ffff) {
        Ok((end, neg, m)) => {
            let v = if neg {
                -(m as i64)
            } else {
                m as i64
            };
            Ok((slice_subrange(input, end, input.len()), v))
        },
        Err(()) => Err(()),
    }
}

/// Reads a signed `isize` number, with an optional sign, between optional
/// whitespace from the start of `input`: the rest of the input and the
/// number.  Fails where there is no digit.  The digits must denote a number
/// that fits in the type's positive range.
pub fn ws_isize(input: &[u8]) -> (r: Result<(&[u8], isize), ()>)
    requires
        magnitude(input@, true, true) <= isize::MAX,
    ensures
        match number_read(input@, true, true) {
            Some((k, v)) => r matches Ok((rest, n)) && n == v && rest@ == input@.skip(k),
            None => r is Err,
        },
{
    match read_number(input, true, true, isize::MAX as u64) {
        Ok((end, neg, m)) => {
            let v = if neg {
                -(m as isize)
            } else {
                m as isize
            };
            Ok((slice_subrange(input, end, input.len()), v))
        },
        Err(()) => Err(()),
    }
}

/// Reads the unsigned 32-bit number written in decimal at the start of
/// `input`: the rest of the input and the number.  Fails where `input` does
/// not start with a digit.  The digits must denote a number that fits.
pub fn u32_utf8(input: &[u8]) -> (r: Result<(&[u8], u32), ()>)
    requires
        magnitude(input@, false, false) <= u32::MAX,
    ensures
        match number_read(input@, false, false) {
            Some((k, v)) => r matches Ok((rest, n)) && n == v && rest@ == input@.skip(k),
            None => r is Err,
        },
{
    match read_number(input, false, false, 0xffff_ffff) {
        Ok((end, _, m)) => Ok((slice_subrange(input, end, input.len()), m as u32)),
        Err(()) => Err(()),
    }
}

/// Reads the unsigned 64-bit number written in decimal at the start of
/// `input`: the rest of the input and the number.  Fails where `input` does
/// not start with a digit.  The digits must denote a number that fits.
pub fn u64_utf8(input: &[u8]) -> (r: Result<(&[u8], u64), ()>)
    requires
        magnitude(input@, false, false) <= u64::MAX,
    ensures
        match number_read(input@, false, false) {
            Some((k, v)) => r matches Ok((rest, n)) && n == v && rest@ == input@.skip(k),
            None => r is Err,
        },
{
    match read_number(input, false, false, 0xffff_ffff_ffff_ffff) {
        Ok((end, _, m)) => Ok((slice_subrange(input, end, input.len()), m)),
        Err(()) => Err(()),
    }
}

/// Reads the unsigned `usize` number written in decimal at the start of
/// `input`: the rest of the input and the number.  Fails where `input` does
/// not start with a digit.  The digits must denote a number that fits.
pub fn usize_utf8(input: &[u8]) -> (r: Result<(&[u8], usize), ()>)
    requires
        magnitude(input@, false, false) <= usize::MAX,
    ensures
        match number_read(input@, false, false) {
            Some((k, v)) => r matches Ok((rest, n)) && n == v && rest@ == input@.skip(k),
            None => r is Err,
        },
{
    match read_number(input, false, false, usize::MAX as u64) {
        Ok((end, _, m)) => Ok((slice_subrange(input, end, input.len()), m as usize)),
        Err(()) => Err(()),
    }
}

/// Reads the signed 32-bit number, with an optional sign, written in
/// decimal at the start of `input`: the rest of the input and the number.
/// Fails where there is no digit after the sign.  The digits must denote a
/// number that fits in the type's positive range.
pub fn i32_utf8(input: &[u8]) -> (r: Result<(&[u8], i32), ()>)
    requires
        magnitude(input@, false, true) <= i32::MAX,
    ensures
        match number_read(input@, false, true) {
            Some((k, v)) => r matches Ok((rest, n)) && n == v && rest@ == input@.skip(k),
            None => r is Err,
        },
{
    match read_number(input, false, true, 0x7fff_ffff) {
        Ok((end, neg, m)) => {
            let v = if neg {
                -(m as i32)
            } else {
                m as i32
            };
            Ok((slice_subrange(input, end, input.len()), v))
        },
        Err(()) => Err(()),
    }
}

/// Reads the signed 64-bit number, with an optional sign, written in
/// decimal at the start of `input`: the rest of the input and the number.
/// Fails where there is no digit after the sign.  The digits must denote a
/// number that fits in the type's positive range.
pub fn i64_utf8(input: &[u8]) -> (r: Result<(&[u8], i64), ()>)
    requires
        magnitude(input@, false, true) <= i64::MAX,
    ensures
        match number_read(input@, false, true) {
            Some((k, v)) => r matches Ok((rest, n)) && n == v && rest@ == input@.skip(k),
            None => r is Err,
        },
{
    match read_number(input, false, true, 0x7fff_ffff_ffff_ffff) {
        Ok((end, neg, m)) => {
            let v = if neg {
                -(m as i64)
            } else {
                m as i64
            };
            Ok((slice_subrange(input, end, input.len()), v))
        },
        Err(()) => Err(()),
    }
}

/// Reads the signed `isize` number, with an optional sign, written in
/// decimal at the start of `input`: the rest of the input and the number.
/// Fails where there is no digit after the sign.  The digits must denote a
/// number that fits in the type's positive range.
pub fn isize_utf8(input: &[u8]) -> (r: Result<(&[u8], isize), ()>)
    requires
        magnitude(input@, false, true) <= isize::MAX,
    ensures
        match number_read(input@, false, true) {
            Some((k, v)) => r matches Ok((rest, n)) && n == v && rest@ == input@.skip(k),
            None => r is Err,
        },
{
    match read_number(input, false, true, isize::MAX as u64) {
        Ok((end, neg, m)) => {
            let v = if neg {
                -(m as isize)
            } else {
                m as isize
            };
            Ok((slice_subrange(input, end, input.len()), v))
        },
        Err(()) => Err(()),
    }
}

/// Where a fractional part (a point followed by digits) that may follow
/// the digits ending at `e` ends; `e` itself where there is none.
pub open spec fn fraction_end(s: Seq<u8>, e: int) -> int {
    if e < s.len() && s[e] == 46 && digits_len(s.skip(e + 1)) > 0 {
        e + 1 + digits_len(s.skip(e + 1))
    } else {
        e
    }
}

/// Splits off the decimal integer (an optional `+` or `-`, then digits)
/// that `input` starts with: the rest of the input and the integer's text.
/// Fails where there is no digit after the sign.
pub fn take_decimal_integer(input: &[u8]) -> (r: Result<(&[u8], &[u8]), ()>)
    ensures
        match number_read(input@, false, true) {
            Some((k, _)) => r matches Ok((rest, taken)) && rest@ == input@.skip(k) && taken@
                == input@.take(k),
            None => r is Err,
        },
{
    let b: usize = if input.len() > 0 && (input[0] == 45 || input[0] == 43) {
        1
    } else {
        0
    };
    let (e, _) = scan_digits(input, b, 0);
    if e == b {
        return Err(());
    }
    Ok((slice_subrange(input, e, input.len()), slice_subrange(input, 0, e)))
}

/// Splits off the decimal real number (an optional `+` or `-`, digits, and
/// optionally a point followed by digits) that `input` starts with: the
/// rest of the input and the number's text.  Fails where there is no digit
/// after the sign.
pub fn take_decimal_real(input: &[u8]) -> (r: Result<(&[u8], &[u8]), ()>)
    ensures
        match number_read(input@, false, true) {
            Some((k, _)) => r matches Ok((rest, taken)) && rest@ == input@.skip(
                fraction_end(input@, k),
            ) && taken@ == input@.take(fraction_end(input@, k)),
            None => r is Err,
        },
{
    let b: usize = if input.len() > 0 && (input[0] == 45 || input[0] == 43) {
        1
    } else {
        0
    };
    let (e, _) = scan_digits(input, b, 0);
    if e == b {
        return Err(());
    }
    let mut f = e;
    if e < input.len() && input[e] == 46 {
        let (g, _) = scan_digits(input, e + 1, 0);
        if g > e + 1 {
            f = g;
        }
    }
    Ok((slice_subrange(input, f, input.len()), slice_subrange(input, 0, f)))
}

} // verus!
