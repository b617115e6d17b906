//! Scoring words by the letter values of Scrabble.
use crate::prompt::char_vec;
use vstd::prelude::*;
use vstd::string::StringExecFns;

verus! {

/// The points of a letter, in either case; other characters score nothing.
pub open spec fn letter_points(c: char) -> nat {
    let l = if 'A' <= c && c <= 'Z' {
        (((c as int) + 32) as u8) as char
    } else {
        c
    };
    if l == 'a' || l == 'e' || l == 'i' || l == 'l' || l == 'n' || l == 'o' || l == 'r' || l == 's' || l
        == 't' || l == 'u' {
        1
    } else if l == 'd' || l == 'g' {
        2
    } else if l == 'b' || l == 'c' || l == 'm' || l == 'p' {
        3
    } else if l == 'f' || l == 'h' || l == 'v' || l == 'w' || l == 'y' {
        4
    } else if l == 'k' {
        5
    } else if l == 'j' || l == 'x' {
        8
    } else if l == 'q' || l == 'z' {
        10
    } else {
        0
    }
}

/// The score of a word: the sum of the points of its letters.
pub open spec fn word_score(w: Seq<char>) -> nat
    decreases w.len(),
{
    if w.len() == 0 {
        0
    } else {
        word_score(w.drop_last()) + letter_points(w.last())
    }
}

/// Who wins a game of two words.
pub open spec fn verdict(s1: nat, s2: nat) -> Seq<char> {
    if s1 > s2 {
        "Player 1 wins!\n"@
    } else if s1 < s2 {
        "Player 2 wins!\n"@
    } else {
        "Tie!\n"@
    }
}

/// The points of one character.
fn points(c: char) -> (r: u32)
    ensures
        r == letter_points(c),
{
    let l = if 'A' <= c && c <= 'Z' {
        (((c as u32) + 32) as u8) as char
    } else {
        c
    };
    match l {
        'a' | 'e' | 'i' | 'l' | 'n' | 'o' | 'r' | 's' | 't' | 'u' => 1,
        'd' | 'g' => 2,
        'b' | 'c' | 'm' | 'p' => 3,
        'f' | 'h' | 'v' | 'w' | 'y' => 4,
        'k' => 5,
        'j' | 'x' => 8,
        'q' | 'z' => 10,
        _ => 0,
    }
}

proof fn lemma_score_prefix(w: Seq<char>, k: int)
    requires
        0 <= k <= w.len(),
    ensures
        word_score(w.subrange(0, k)) <= word_score(w),
    decreases w.len() - k,
{
    if k < w.len() {
        lemma_score_prefix(w, k + 1);
        assert(w.subrange(0, k + 1).drop_last() =~= w.subrange(0, k));
    } else {
        assert(w.subrange(0, k) =~= w);
    }
}

/// The score of `word`.
pub fn compute_score(word: String) -> (r: u32)
    requires
        word_score(word@) <= u32::MAX,
    ensures
        r == word_score(word@),
{
    let chars = char_vec(word.as_str());
    let mut score: u32 = 0;
    let mut k: usize = 0;
    while k < chars.len()
        invariant
            k <= chars@.len(),
            chars@ == word@,
            word_score(word@) <= u32::MAX,
            score == word_score(chars@.subrange(0, k as int)),
        decreases chars@.len() - k,
    {
        proof {
            assert(chars@.subrange(0, k as int + 1).drop_last() =~= chars@.subrange(0, k as int));
            lemma_score_prefix(chars@, k as int + 1);
        }
        score = score + points(chars[k]);
        k = k + 1;
    }
    proof {
        assert(chars@.subrange(0, k as int) =~= chars@);
    }
    score
}

/// The result of a game between the words of player 1 and player 2.
pub fn scrabble(p1: String, p2: String) -> (r: String)
    requires
        word_score(p1@) <= u32::MAX,
        word_score(p2@) <= u32::MAX,
    ensures
        r@ == verdict(word_score(p1@), word_score(p2@)),
{
    let s1 = compute_score(p1);
    let s2 = compute_score(p2);
    if s1 > s2 {
        String::from_str("Player 1 wins!\n")
    } else if s1 < s2 {
        String::from_str("Player 2 wins!\n")
    } else {
        String::from_str("Tie!\n")
    }
}

} // verus!
