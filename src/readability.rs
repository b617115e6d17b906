//! The Coleman-Liau readability grade of a text, from its counts of letters,
//! sentences and words, computed exactly in integers.
use crate::prompt::{char_vec, is_white_space, push_char, white_space};
use vstd::prelude::*;
use vstd::string::StringExecFns;

verus! {

/// Whether `c` has Unicode's Alphabetic property.
pub uninterp spec fn alphabetic(c: char) -> bool;

/// Relies on `char::is_alphabetic`: whether `c` has Unicode's Alphabetic property.
#[verifier::external_body]
fn is_alphabetic(c: char) -> (r: bool)
    ensures
        r == alphabetic(c),
{
    c.is_alphabetic()
}

/// `c` ends a sentence.
pub open spec fn ends_sentence(c: char) -> bool {
    c == '.' || c == '!' || c == '?'
}

/// The counts of letters, sentence ends and white space characters in `s`; a
/// character counts once, as the first of these that it is.
pub open spec fn counts(s: Seq<char>) -> (nat, nat, nat)
    decreases s.len(),
{
    if s.len() == 0 {
        (0, 0, 0)
    } else {
        let (l, e, w) = counts(s.drop_last());
        let c = s.last();
        if alphabetic(c) {
            (l + 1, e, w)
        } else if ends_sentence(c) {
            (l, e + 1, w)
        } else if is_white_space(c) {
            (l, e, w + 1)
        } else {
            (l, e, w)
        }
    }
}

/// The decimal digits of `n`.
pub open spec fn decimal(n: nat) -> Seq<char>
    decreases n,
{
    if n < 10 {
        seq![((n + 48) as u8) as char]
    } else {
        decimal(n / 10).push((((n % 10) + 48) as u8) as char)
    }
}

/// `x / d` rounded to the nearest integer, halves to the even one.
pub open spec fn round_half_even(x: int, d: int) -> int {
    let q = x / d;
    let r = x % d;
    if 2 * r > d || (2 * r == d && q % 2 == 1) {
        q + 1
    } else {
        q
    }
}

/// The grade for `letters`, `sentences` and `words`: the index is
/// `0.0588 * L - 0.296 * S - 15.8`, with `L` letters and `S` sentences per 100
/// words. Below 1 it is `Before Grade 1`, from 16 on `Grade 16+`, else the
/// rounded index; without words the index is undefined: `Grade NaN`.
pub open spec fn grade_text(letters: nat, sentences: nat, words: nat) -> Seq<char> {
    let x: int = 588 * letters - 2960 * sentences - 1580 * words;
    let d: int = 100 * words as int;
    if words == 0 {
        "Grade NaN"@
    } else if x < d {
        "Before Grade 1"@
    } else if x >= 16 * d {
        "Grade 16+"@
    } else {
        "Grade "@ + decimal(round_half_even(x, d) as nat)
    }
}

/// The counts of `text`: letters, sentences, and words (white space plus one,
/// for a text that is not empty).
pub open spec fn text_data(text: Seq<char>) -> (nat, nat, nat) {
    let (l, e, w) = counts(text);
    (l, e, if text.len() > 0 { w + 1 } else { w })
}

/// Counts the letters, sentences and words of `text`.
pub fn get_data(text: &str) -> (r: (usize, usize, usize))
    requires
        text@.len() < usize::MAX,
    ensures
        (r.0 as nat, r.1 as nat, r.2 as nat) == text_data(text@),
{
    let chars = char_vec(text);
    let mut letters: usize = 0;
    let mut sentences: usize = 0;
    let mut words: usize = 0;
    let mut k: usize = 0;
    while k < chars.len()
        invariant
            k <= chars@.len(),
            chars@ == text@,
            (letters as nat, sentences as nat, words as nat) == counts(chars@.subrange(0, k as int)),
            letters + sentences + words <= k,
        decreases chars@.len() - k,
    {
        let c = chars[k];
        proof {
            assert(chars@.subrange(0, k as int + 1).drop_last() =~= chars@.subrange(0, k as int));
        }
        if is_alphabetic(c) {
            letters = letters + 1;
        } else if c == '.' || c == '!' || c == '?' {
            sentences = sentences + 1;
        } else if white_space(c) {
            words = words + 1;
        }
        k = k + 1;
    }
    proof {
        assert(chars@.subrange(0, k as int) =~= chars@);
    }
    if k > 0 {
        words = words + 1;
    }
    (letters, sentences, words)
}

/// The grade level of `text`.
pub fn readability(text: String) -> (r: String)
    requires
        text@.len() < usize::MAX,
    ensures
        ({
            let (l, e, w) = text_data(text@);
            r@ == grade_text(l, e, w)
        }),
{
    let (letters, sentences, words) = get_data(text.as_str());
    grade(letters, sentences, words)
}

/// The grade text for the given counts.
pub fn grade(letters: usize, sentences: usize, words: usize) -> (r: String)
    ensures
        r@ == grade_text(letters as nat, sentences as nat, words as nat),
{
    if words == 0 {
        return String::from_str("Grade NaN");
    }
    let x: i128 = 588 * (letters as i128) - 2960 * (sentences as i128) - 1580 * (words as i128);
    let d: i128 = 100 * (words as i128);
    if x < d {
        return String::from_str("Before Grade 1");
    }
    if x >= 16 * d {
        return String::from_str("Grade 16+");
    }
    let q = x / d;
    let rem = x % d;
    let g: i128 = if 2 * rem > d || (2 * rem == d && q % 2 == 1) {
        q + 1
    } else {
        q
    };
    proof {
        assert(1 <= q < 16) by (nonlinear_arith)
            requires
                d <= x < 16 * d,
                d > 0,
                q == x / d,
        ;
    }
    let mut r = String::from_str("Grade ");
    if g >= 10 {
        push_char(&mut r, '1');
        push_char(&mut r, (((g - 10) + 48) as u8) as char);
        proof {
            assert(decimal(g as nat) =~= seq!['1', (((g - 10) + 48) as u8) as char]) by {
                assert(decimal((g / 10) as nat) == seq!['1']);
            }
        }
    } else {
        push_char(&mut r, ((g + 48) as u8) as char);
    }
    r
}

} // verus!
