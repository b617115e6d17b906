//! A substitution cipher: the key lists, for each letter of the alphabet in
//! order, the letter that replaces it. Letters here are those of the ASCII alphabet.
use crate::caesar::{is_lower, is_upper};
use crate::prompt::{char_vec, string_of};
use vstd::prelude::*;

verus! {

/// The number of letters in the alphabet.
pub const ALPHABET_SIZE: usize = 26;

/// `c` is an ASCII letter.
pub open spec fn is_letter(c: char) -> bool {
    is_lower(c) || is_upper(c)
}

/// The place of the letter `c` in the alphabet, from 0.
pub open spec fn letter_index(c: char) -> int {
    if is_upper(c) {
        c as int - 'A' as int
    } else {
        c as int - 'a' as int
    }
}

/// `c` in upper case, if it is an ASCII lowercase letter; else `c`.
pub open spec fn ascii_upper(c: char) -> char {
    if is_lower(c) {
        ((c as int - 32) as u8) as char
    } else {
        c
    }
}

/// `c` in lower case, if it is an ASCII uppercase letter; else `c`.
pub open spec fn ascii_lower(c: char) -> char {
    if is_upper(c) {
        ((c as int + 32) as u8) as char
    } else {
        c
    }
}

/// A valid key: 26 bytes long, all letters, no letter twice (case aside).
pub open spec fn valid_key(byte_len: nat, key: Seq<char>) -> bool {
    &&& byte_len == ALPHABET_SIZE
    &&& forall|i: int| 0 <= i < key.len() ==> is_letter(#[trigger] key[i])
    &&& forall|i: int, j: int|
        0 <= i < j < key.len() ==> letter_index(#[trigger] key[i]) != letter_index(#[trigger] key[j])
}

/// What the key makes of `c`: a letter becomes the key's letter at its place, in
/// the case of `c`; anything else stays.
pub open spec fn substitute(key: Seq<char>, c: char) -> char {
    if is_letter(c) {
        let n = key[letter_index(c)];
        if is_upper(c) {
            ascii_upper(n)
        } else {
            ascii_lower(n)
        }
    } else {
        c
    }
}

/// Whether `key` holds 26 letters with none repeated, in either case.
pub fn is_key_valid(key: &str) -> (r: bool)
    ensures
        r == valid_key(key.len() as nat, key@),
{
    if key.len() != ALPHABET_SIZE {
        return false;
    }
    let chars = char_vec(key);
    let mut seen: Vec<bool> = Vec::new();
    let mut x: usize = 0;
    while x < ALPHABET_SIZE
        invariant
            x <= ALPHABET_SIZE,
            key.len() == ALPHABET_SIZE,
            seen@.len() == x,
            forall|y: int| 0 <= y < x ==> !(#[trigger] seen@[y]),
        decreases ALPHABET_SIZE - x,
    {
        seen.push(false);
        x = x + 1;
    }
    let mut k: usize = 0;
    while k < chars.len()
        invariant
            k <= chars@.len(),
            chars@ == key@,
            key.len() == ALPHABET_SIZE,
            seen@.len() == ALPHABET_SIZE,
            forall|i: int| 0 <= i < k ==> is_letter(#[trigger] chars@[i]),
            forall|i: int, j: int|
                0 <= i < j < k ==> letter_index(#[trigger] chars@[i]) != letter_index(#[trigger] chars@[j]),
            forall|y: int| 0 <= y < ALPHABET_SIZE ==> (#[trigger] seen@[y] <==> exists|i: int| 0 <= i < k && letter_index(#[trigger] chars@[i]) == y),
        decreases chars@.len() - k,
    {
        let c = chars[k];
        if !(('a' <= c && c <= 'z') || ('A' <= c && c <= 'Z')) {
            return false;
        }
        let index = if 'A' <= c && c <= 'Z' {
            (c as u32 - 'A' as u32) as usize
        } else {
            (c as u32 - 'a' as u32) as usize
        };
        if seen[index] {
            proof {
                let i = choose|i: int| 0 <= i < k && letter_index(#[trigger] chars@[i]) == index;
                assert(letter_index(chars@[i]) == letter_index(chars@[k as int]));
            }
            return false;
        }
        let ghost old_seen = seen@;
        seen.set(index, true);
        proof {
            assert forall|y: int| 0 <= y < ALPHABET_SIZE implies (#[trigger] seen@[y] <==> exists|i: int|
                0 <= i < k + 1 && letter_index(#[trigger] chars@[i]) == y) by {
                if y == index {
                    assert(letter_index(chars@[k as int]) == y);
                } else if seen@[y] {
                    let i = choose|i: int| 0 <= i < k && letter_index(#[trigger] chars@[i]) == y;
                    assert(0 <= i < k + 1 && letter_index(chars@[i]) == y);
                }
            }
            assert forall|i: int, j: int|
                0 <= i < j < k + 1 implies letter_index(#[trigger] chars@[i]) != letter_index(#[trigger] chars@[j]) by {
                if j == k {
                    if letter_index(chars@[i]) == index {
                        assert(old_seen[index as int]);
                    }
                }
            }
        }
        k = k + 1;
    }
    true
}

/// Replaces each letter of `plaintext` by the key's letter at its place, keeping its case.
pub fn substitution(plaintext: String, key: String) -> (r: String)
    requires
        key@.len() >= ALPHABET_SIZE,
    ensures
        r@.len() == plaintext@.len(),
        forall|i: int| 0 <= i < r@.len() ==> #[trigger] r@[i] == substitute(key@, plaintext@[i]),
{
    let key = char_vec(key.as_str());
    let chars = char_vec(plaintext.as_str());
    let mut out: Vec<char> = Vec::new();
    let mut k: usize = 0;
    while k < chars.len()
        invariant
            k <= chars@.len(),
            chars@ == plaintext@,
            key@.len() >= ALPHABET_SIZE,
            out@.len() == k,
            forall|i: int| 0 <= i < k ==> #[trigger] out@[i] == substitute(key@, chars@[i]),
        decreases chars@.len() - k,
    {
        let c = chars[k];
        let new_c = if ('a' <= c && c <= 'z') || ('A' <= c && c <= 'Z') {
            let upper = 'A' <= c && c <= 'Z';
            let index = if upper {
                (c as u32 - 'A' as u32) as usize
            } else {
                (c as u32 - 'a' as u32) as usize
            };
            let n = key[index];
            if upper {
                if 'a' <= n && n <= 'z' {
                    ((n as u32 - 32) as u8) as char
                } else {
                    n
                }
            } else {
                if 'A' <= n && n <= 'Z' {
                    ((n as u32 + 32) as u8) as char
                } else {
                    n
                }
            }
        } else {
            c
        };
        out.push(new_c);
        k = k + 1;
    }
    string_of(&out)
}

} // verus!
