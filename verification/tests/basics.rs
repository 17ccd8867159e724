use psychopath::parse::basics::{
    i32_utf8, i64_utf8, take_decimal_integer, take_decimal_real, u32_utf8, u64_utf8, ws_i32,
    ws_i64, ws_isize, ws_u32, ws_u64, ws_usize,
};

#[test]
fn basics_ws_u32_1() {
    assert_eq!(ws_u32(b"42"), Ok((&b""[..], 42)));
    assert_eq!(ws_u32(b"     42"), Ok((&b""[..], 42)));
    assert_eq!(ws_u32(b"42   "), Ok((&b""[..], 42)));
    assert_eq!(ws_u32(b"     42"), Ok((&b""[..], 42)));
    assert_eq!(ws_u32(b"     42   53"), Ok((&b"53"[..], 42)));
}

#[test]
fn basics_ws_i32_1() {
    assert_eq!(ws_i32(b"42"), Ok((&b""[..], 42)));
    assert_eq!(ws_i32(b"     42"), Ok((&b""[..], 42)));
    assert_eq!(ws_i32(b"42   "), Ok((&b""[..], 42)));
    assert_eq!(ws_i32(b"     42"), Ok((&b""[..], 42)));
    assert_eq!(ws_i32(b"     42   53"), Ok((&b"53"[..], 42)));
}

#[test]
fn basics_ws_i32_2() {
    assert_eq!(ws_i32(b"-42"), Ok((&b""[..], -42)));
    assert_eq!(ws_i32(b"     -42"), Ok((&b""[..], -42)));
    assert_eq!(ws_i32(b"-42   "), Ok((&b""[..], -42)));
    assert_eq!(ws_i32(b"     -42   "), Ok((&b""[..], -42)));
    assert_eq!(ws_i32(b"     -42   53"), Ok((&b"53"[..], -42)));
}

#[test]
fn ws_u64_1() {
    assert_eq!(ws_u64(b"42"), Ok((&b""[..], 42)));
    assert_eq!(ws_u64(b"     42"), Ok((&b""[..], 42)));
    assert_eq!(ws_u64(b"42   "), Ok((&b""[..], 42)));
    assert_eq!(ws_u64(b"     42"), Ok((&b""[..], 42)));
    assert_eq!(ws_u64(b"     42   53"), Ok((&b"53"[..], 42)));
}

#[test]
fn ws_i64_1() {
    assert_eq!(ws_i64(b"42"), Ok((&b""[..], 42)));
    assert_eq!(ws_i64(b"     42"), Ok((&b""[..], 42)));
    assert_eq!(ws_i64(b"42   "), Ok((&b""[..], 42)));
    assert_eq!(ws_i64(b"     42"), Ok((&b""[..], 42)));
    assert_eq!(ws_i64(b"     42   53"), Ok((&b"53"[..], 42)));
}

#[test]
fn ws_i64_2() {
    assert_eq!(ws_i64(b"-42"), Ok((&b""[..], -42)));
    assert_eq!(ws_i64(b"     -42"), Ok((&b""[..], -42)));
    assert_eq!(ws_i64(b"-42   "), Ok((&b""[..], -42)));
    assert_eq!(ws_i64(b"     -42   "), Ok((&b""[..], -42)));
    assert_eq!(ws_i64(b"     -42   53"), Ok((&b"53"[..], -42)));
}

#[test]
fn basics_ws_usize_1() {
    assert_eq!(ws_usize(b"42"), Ok((&b""[..], 42)));
    assert_eq!(ws_usize(b"     42"), Ok((&b""[..], 42)));
    assert_eq!(ws_usize(b"42   "), Ok((&b""[..], 42)));
    assert_eq!(ws_usize(b"     42"), Ok((&b""[..], 42)));
    assert_eq!(ws_usize(b"     42   53"), Ok((&b"53"[..], 42)));
}

#[test]
fn ws_isize_1() {
    assert_eq!(ws_isize(b"42"), Ok((&b""[..], 42)));
    assert_eq!(ws_isize(b"     42"), Ok((&b""[..], 42)));
    assert_eq!(ws_isize(b"42   "), Ok((&b""[..], 42)));
    assert_eq!(ws_isize(b"     42"), Ok((&b""[..], 42)));
    assert_eq!(ws_isize(b"     42   53"), Ok((&b"53"[..], 42)));
}

#[test]
fn ws_isize_2() {
    assert_eq!(ws_isize(b"-42"), Ok((&b""[..], -42)));
    assert_eq!(ws_isize(b"     -42"), Ok((&b""[..], -42)));
    assert_eq!(ws_isize(b"-42   "), Ok((&b""[..], -42)));
    assert_eq!(ws_isize(b"     -42   "), Ok((&b""[..], -42)));
    assert_eq!(ws_isize(b"     -42   53"), Ok((&b"53"[..], -42)));
}

#[test]
fn take_decimal_real_1() {
    assert_eq!(take_decimal_real(b"-42.3"), Ok((&b""[..], &b"-42.3"[..])));
    assert_eq!(take_decimal_real(b"42.3"), Ok((&b""[..], &b"42.3"[..])));
    assert_eq!(take_decimal_real(b"-42"), Ok((&b""[..], &b"-42"[..])));
    assert_eq!(take_decimal_real(b"+42.3"), Ok((&b""[..], &b"+42.3"[..])));
}

#[test]
fn take_decimal_real_stops_at_bare_point() {
    assert_eq!(take_decimal_real(b"42.x"), Ok((&b".x"[..], &b"42"[..])));
    assert_eq!(take_decimal_real(b"7.25 rest"), Ok((&b" rest"[..], &b"7.25"[..])));
    assert!(take_decimal_real(b"-").is_err());
    assert!(take_decimal_real(b".5").is_err());
}

#[test]
fn take_decimal_integer_values() {
    assert_eq!(take_decimal_integer(b"-42.3"), Ok((&b".3"[..], &b"-42"[..])));
    assert_eq!(take_decimal_integer(b"+7"), Ok((&b""[..], &b"+7"[..])));
    assert!(take_decimal_integer(b"x1").is_err());
}

#[test]
fn u32_utf8_1() {
    assert_eq!(u32_utf8(b"42"), Ok((&b""[..], 42)));
    assert_eq!(u32_utf8(b"-42").is_err(), true);
}

#[test]
fn i32_utf8_1() {
    assert_eq!(i32_utf8(b"42"), Ok((&b""[..], 42)));
    assert_eq!(i32_utf8(b"-42"), Ok((&b""[..], -42)));
    assert_eq!(i32_utf8(b"+42"), Ok((&b""[..], 42)));
    assert_eq!(i32_utf8(b"--42").is_err(), true);
    assert_eq!(i32_utf8(b"+-42").is_err(), true);
}

#[test]
fn u64_utf8_1() {
    assert_eq!(u64_utf8(b"42"), Ok((&b""[..], 42)));
    assert_eq!(u64_utf8(b"-42").is_err(), true);
}

#[test]
fn i64_utf8_1() {
    assert_eq!(i64_utf8(b"42"), Ok((&b""[..], 42)));
    assert_eq!(i64_utf8(b"-42"), Ok((&b""[..], -42)));
    assert_eq!(i64_utf8(b"+42"), Ok((&b""[..], 42)));
    assert_eq!(i64_utf8(b"--42").is_err(), true);
    assert_eq!(i64_utf8(b"+-42").is_err(), true);
}

#[test]
fn number_limits() {
    assert_eq!(u32_utf8(b"4294967295"), Ok((&b""[..], u32::MAX)));
    assert_eq!(u64_utf8(b"18446744073709551615"), Ok((&b""[..], u64::MAX)));
    assert_eq!(i32_utf8(b"-2147483647x"), Ok((&b"x"[..], -2147483647)));
    assert_eq!(ws_u32(b" 007 "), Ok((&b""[..], 7)));
    assert!(ws_u32(b"   ").is_err());
}
