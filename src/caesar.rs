//! Caesar's cipher: letters are shifted round the alphabet by a fixed key.
use crate::prompt::{char_vec, string_of};
use vstd::prelude::*;

verus! {

/// `c` is an ASCII lowercase letter.
pub open spec fn is_lower(c: char) -> bool {
    'a' <= c && c <= 'z'
}

/// `c` is an ASCII uppercase letter.
pub open spec fn is_upper(c: char) -> bool {
    'A' <= c && c <= 'Z'
}

/// `c` moved `shift` places on in its alphabet (lower or upper case); any other
/// character is left as it is.
pub open spec fn shift_letter(c: char, shift: nat) -> char {
    if is_lower(c) {
        (((c as int - 'a' as int + shift) % 26 + 'a' as int) as u8) as char
    } else if is_upper(c) {
        (((c as int - 'A' as int + shift) % 26 + 'A' as int) as u8) as char
    } else {
        c
    }
}

/// Shifts one character by `shift`, which is less than 26.
fn shift_char(c: char, shift: u32) -> (r: char)
    requires
        shift < 26,
    ensures
        r == shift_letter(c, shift as nat),
{
    if 'a' <= c && c <= 'z' {
        let offset = c as u32 - 'a' as u32;
        (((offset + shift) % 26 + 'a' as u32) as u8) as char
    } else if 'A' <= c && c <= 'Z' {
        let offset = c as u32 - 'A' as u32;
        (((offset + shift) % 26 + 'A' as u32) as u8) as char
    } else {
        c
    }
}

/// The text with each letter shifted `key` places on, wrapping from `z` to `a`.
pub fn caesar(plaintext: String, key: u32) -> (r: String)
    ensures
        r@.len() == plaintext@.len(),
        forall|i: int| 0 <= i < r@.len() ==> #[trigger] r@[i] == shift_letter(plaintext@[i], (key % 26) as nat),
{
    let shift = key % 26;
    let chars = char_vec(plaintext.as_str());
    let mut out: Vec<char> = Vec::new();
    let mut k: usize = 0;
    while k < chars.len()
        invariant
            k <= chars@.len(),
            chars@ == plaintext@,
            shift == key % 26,
            out@.len() == k,
            forall|i: int| 0 <= i < k ==> #[trigger] out@[i] == shift_letter(chars@[i], shift as nat),
        decreases chars@.len() - k,
    {
        out.push(shift_char(chars[k], shift));
        k = k + 1;
    }
    string_of(&out)
}

} // verus!
