use psets::prompt::ReadError;
use psets::rust50::{
    get_bool, get_char, get_i128, get_i16, get_i32, get_i64, get_i8, get_isize, get_string,
    get_u128, get_u16, get_u32, get_u64, get_u8, get_usize,
};

#[test]
fn string_is_trimmed() {
    let mut input: &[u8] = b"  hello world \t\nnext\n";
    let mut output: Vec<u8> = Vec::new();
    assert_eq!(get_string("Text: ", &mut input, &mut output), Ok("hello world".to_string()));
    assert_eq!(output, b"Text: ");
    assert_eq!(input, b"next\n");
}

#[test]
fn string_at_end_of_input() {
    let mut input: &[u8] = b"";
    let mut output: Vec<u8> = Vec::new();
    assert_eq!(get_string("Text: ", &mut input, &mut output), Ok(String::new()));
    assert_eq!(output, b"Text: ");
    let mut input: &[u8] = b"\xff\n";
    assert_eq!(get_string("Text: ", &mut input, &mut output), Err(ReadError::InvalidUtf8));
}

#[test]
fn signed_limits() {
    let mut out: Vec<u8> = Vec::new();
    let mut input: &[u8] = b"128\n-129\n-128\n";
    assert_eq!(get_i8("n: ", &mut input, &mut out), Ok(-128));
    assert_eq!(out, b"n: n: n: ");
    let mut input: &[u8] = b"+127\n";
    assert_eq!(get_i8("", &mut input, &mut out), Ok(127));
    let mut input: &[u8] = b"-32768\n";
    assert_eq!(get_i16("", &mut input, &mut out), Ok(-32768));
    let mut input: &[u8] = b"2147483647\n";
    assert_eq!(get_i32("", &mut input, &mut out), Ok(2147483647));
    let mut input: &[u8] = b"-9223372036854775808\n";
    assert_eq!(get_i64("", &mut input, &mut out), Ok(i64::MIN));
    let mut input: &[u8] = b"-170141183460469231731687303715884105728\n";
    assert_eq!(get_i128("", &mut input, &mut out), Ok(i128::MIN));
    let mut input: &[u8] = b"170141183460469231731687303715884105727\n";
    assert_eq!(get_i128("", &mut input, &mut out), Ok(i128::MAX));
    let mut input: &[u8] = b"-5\n";
    assert_eq!(get_isize("", &mut input, &mut out), Ok(-5));
}

#[test]
fn unsigned_limits() {
    let mut out: Vec<u8> = Vec::new();
    let mut input: &[u8] = b"-0\n256\n255\n";
    assert_eq!(get_u8("", &mut input, &mut out), Ok(255));
    let mut input: &[u8] = b"65535\n";
    assert_eq!(get_u16("", &mut input, &mut out), Ok(65535));
    let mut input: &[u8] = b"4294967296\n7\n";
    assert_eq!(get_u32("", &mut input, &mut out), Ok(7));
    let mut input: &[u8] = b"18446744073709551615\n";
    assert_eq!(get_u64("", &mut input, &mut out), Ok(u64::MAX));
    let mut input: &[u8] = b"340282366920938463463374607431768211456\n1\n";
    assert_eq!(get_u128("", &mut input, &mut out), Ok(1));
    let mut input: &[u8] = b"+\n-\n12\n";
    assert_eq!(get_usize("", &mut input, &mut out), Ok(12));
}

#[test]
fn chars_and_bools() {
    let mut out: Vec<u8> = Vec::new();
    let mut input: &[u8] = b"ab\n\n  \xc3\xa9 \n";
    assert_eq!(get_char("c: ", &mut input, &mut out), Ok('\u{e9}'));
    assert_eq!(out, b"c: c: c: ");
    let mut input: &[u8] = b"True\nyes\n false\n";
    assert_eq!(get_bool("", &mut input, &mut out), Ok(false));
    let mut input: &[u8] = b"true";
    assert_eq!(get_bool("", &mut input, &mut out), Ok(true));
    let mut input: &[u8] = b"maybe\n";
    assert_eq!(get_bool("", &mut input, &mut out), Err(ReadError::EndOfInput));
}
