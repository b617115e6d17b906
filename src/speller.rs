//! Picking out the words of a line of text for a spell checker.
//!
//! A line is cut at every character that is neither an ASCII letter or digit nor
//! an apostrophe. The pieces are taken from the last one back. A piece with a
//! digit, or longer than `MAX_LENGTH`, is no word, but what follows its first
//! apostrophe is looked at again as a piece; any other piece, without its leading
//! apostrophes, is a word unless nothing is left of it.
use crate::prompt::{char_vec, string_of};
use vstd::prelude::*;

verus! {

/// The longest word that is checked.
pub const MAX_LENGTH: usize = 45;

/// `c` is an ASCII letter or digit.
pub open spec fn is_alnum(c: char) -> bool {
    ('a' <= c && c <= 'z') || ('A' <= c && c <= 'Z') || ('0' <= c && c <= '9')
}

/// `c` can be part of a word: an ASCII letter or digit, or an apostrophe.
pub open spec fn is_word_char(c: char) -> bool {
    is_alnum(c) || c == '\''
}

/// `s` cut at each character that cannot be part of a word; `n` cuts give
/// `n + 1` pieces, some of them perhaps empty.
pub open spec fn pieces(s: Seq<char>) -> Seq<Seq<char>>
    decreases s.len(),
{
    if s.len() == 0 {
        seq![Seq::empty()]
    } else {
        let p = pieces(s.drop_last());
        if is_word_char(s.last()) {
            p.update(p.len() - 1, p.last().push(s.last()))
        } else {
            p.push(Seq::empty())
        }
    }
}

/// `w` holds an ASCII digit.
pub open spec fn has_digit(w: Seq<char>) -> bool {
    exists|i: int| 0 <= i < w.len() && '0' <= #[trigger] w[i] && w[i] <= '9'
}

/// The position of the first character of `w` from `k` on that is no letter or digit, or `w.len()`.
pub open spec fn first_other_from(w: Seq<char>, k: nat) -> nat
    decreases w.len() - k,
{
    if k >= w.len() {
        w.len()
    } else if !is_alnum(w[k as int]) {
        k
    } else {
        first_other_from(w, k + 1)
    }
}

/// `w` without its leading apostrophes.
pub open spec fn strip_apostrophes(w: Seq<char>) -> Seq<char>
    decreases w.len(),
{
    if w.len() > 0 && w[0] == '\'' {
        strip_apostrophes(w.drop_first())
    } else {
        w
    }
}

/// The pieces' lengths, each plus one, added up.
pub open spec fn stack_weight(st: Seq<Seq<char>>) -> nat
    decreases st.len(),
{
    if st.len() == 0 {
        0
    } else {
        stack_weight(st.drop_last()) + st.last().len() + 1
    }
}

/// The first character that is no letter or digit lies between `k` and the end.
pub proof fn lemma_first_other_from(w: Seq<char>, k: nat)
    requires
        k <= w.len(),
    ensures
        k <= first_other_from(w, k) <= w.len(),
    decreases w.len() - k,
{
    if k < w.len() && is_alnum(w[k as int]) {
        lemma_first_other_from(w, k + 1);
    }
}

/// The words of the pieces `st`, the last piece first.
pub open spec fn words_from(st: Seq<Seq<char>>) -> Seq<Seq<char>>
    decreases stack_weight(st),
{
    if st.len() == 0 {
        Seq::empty()
    } else {
        let w = st.last();
        let rest = st.drop_last();
        proof {
            lemma_first_other_from(w, 0);
            assert(rest.push(w.subrange(first_other_from(w, 0) as int + 1, w.len() as int)).drop_last() =~= rest);
        }
        if has_digit(w) || w.len() > MAX_LENGTH {
            let i = first_other_from(w, 0);
            if i < w.len() {
                words_from(rest.push(w.subrange(i as int + 1, w.len() as int)))
            } else {
                words_from(rest)
            }
        } else {
            let s = strip_apostrophes(w);
            if s.len() == 0 {
                words_from(rest)
            } else {
                seq![s] + words_from(rest)
            }
        }
    }
}

/// The texts of a list of character vectors.
pub open spec fn views_of(v: Seq<Vec<char>>) -> Seq<Seq<char>> {
    Seq::new(v.len(), |i: int| v[i]@)
}

/// The texts of a list of strings.
pub open spec fn strings_of(v: Seq<String>) -> Seq<Seq<char>> {
    Seq::new(v.len(), |i: int| v[i]@)
}

fn alnum(c: char) -> (r: bool)
    ensures
        r == is_alnum(c),
{
    ('a' <= c && c <= 'z') || ('A' <= c && c <= 'Z') || ('0' <= c && c <= '9')
}

/// Cuts `chars` into pieces at the characters that cannot be part of a word.
fn split_pieces(chars: &Vec<char>) -> (r: Vec<Vec<char>>)
    ensures
        views_of(r@) == pieces(chars@),
{
    let mut done: Vec<Vec<char>> = Vec::new();
    let mut cur: Vec<char> = Vec::new();
    let mut k: usize = 0;
    while k < chars.len()
        invariant
            k <= chars@.len(),
            views_of(done@).push(cur@) == pieces(chars@.subrange(0, k as int)),
        decreases chars@.len() - k,
    {
        let c = chars[k];
        let ghost before = views_of(done@).push(cur@);
        proof {
            assert(chars@.subrange(0, k as int + 1).drop_last() =~= chars@.subrange(0, k as int));
        }
        if alnum(c) || c == '\'' {
            cur.push(c);
            proof {
                assert(views_of(done@).push(cur@) =~= before.update(before.len() - 1, before.last().push(c)));
            }
        } else {
            let piece = cur;
            cur = Vec::new();
            done.push(piece);
            proof {
                assert(views_of(done@).push(cur@) =~= before.push(Seq::empty()));
            }
        }
        k = k + 1;
    }
    proof {
        assert(chars@.subrange(0, k as int) =~= chars@);
    }
    let ghost before = views_of(done@).push(cur@);
    done.push(cur);
    proof {
        assert(views_of(done@) =~= before);
    }
    done
}

/// The words of `line` to be checked, in the order they are taken.
pub fn line_words(line: &str) -> (r: Vec<String>)
    ensures
        strings_of(r@) == words_from(pieces(line@)),
{
    let chars = char_vec(line);
    let mut stack = split_pieces(&chars);
    let ghost all = views_of(stack@);
    let mut words: Vec<String> = Vec::new();
    while stack.len() > 0
        invariant
            strings_of(words@) + words_from(views_of(stack@)) == words_from(all),
        decreases stack_weight(views_of(stack@)),
    {
        let ghost st = views_of(stack@);
        let w = stack.pop().unwrap();
        proof {
            assert(views_of(stack@) =~= st.drop_last());
            assert(w@ == st.last());
            assert(stack_weight(st) == stack_weight(views_of(stack@)) + w@.len() + 1);
        }
        let mut digit = false;
        let mut j: usize = 0;
        while j < w.len()
            invariant
                j <= w@.len(),
                digit == exists|i: int| 0 <= i < j && '0' <= #[trigger] w@[i] && w@[i] <= '9',
            decreases w@.len() - j,
        {
            if '0' <= w[j] && w[j] <= '9' {
                digit = true;
            }
            j = j + 1;
        }
        if digit || w.len() > MAX_LENGTH {
            let mut i: usize = 0;
            while i < w.len() && alnum(w[i])
                invariant
                    i <= w@.len(),
                    first_other_from(w@, 0) == first_other_from(w@, i as nat),
                decreases w@.len() - i,
            {
                i = i + 1;
            }
            if i < w.len() {
                let mut rest: Vec<char> = Vec::new();
                let mut k: usize = i + 1;
                while k < w.len()
                    invariant
                        i < k <= w@.len(),
                        rest@ == w@.subrange(i + 1, k as int),
                    decreases w@.len() - k,
                {
                    rest.push(w[k]);
                    k = k + 1;
                    proof {
                        assert(rest@ =~= w@.subrange(i + 1, k as int));
                    }
                }
                let ghost popped = views_of(stack@);
                stack.push(rest);
                proof {
                    let t = w@.subrange(i + 1, w@.len() as int);
                    assert(views_of(stack@) =~= popped.push(t));
                    assert(popped.push(t).drop_last() =~= popped);
                    assert(stack_weight(popped.push(t)) == stack_weight(popped) + t.len() + 1);
                }
            }
        } else {
            let mut a: usize = 0;
            proof {
                assert(w@.subrange(0, w@.len() as int) =~= w@);
            }
            while a < w.len() && w[a] == '\''
                invariant
                    a <= w@.len(),
                    strip_apostrophes(w@) == strip_apostrophes(w@.subrange(a as int, w@.len() as int)),
                decreases w@.len() - a,
            {
                proof {
                    assert(w@.subrange(a as int, w@.len() as int).drop_first() =~= w@.subrange(a + 1, w@.len() as int));
                }
                a = a + 1;
            }
            proof {
                assert(strip_apostrophes(w@.subrange(a as int, w@.len() as int)) == w@.subrange(a as int, w@.len() as int));
            }
            if a < w.len() {
                let mut s: Vec<char> = Vec::new();
                let mut k: usize = a;
                while k < w.len()
                    invariant
                        a <= k <= w@.len(),
                        s@ == w@.subrange(a as int, k as int),
                    decreases w@.len() - k,
                {
                    s.push(w[k]);
                    k = k + 1;
                    proof {
                        assert(s@ =~= w@.subrange(a as int, k as int));
                    }
                }
                let ghost prev = strings_of(words@);
                words.push(string_of(&s));
                proof {
                    assert(strings_of(words@) =~= prev.push(s@));
                    assert(prev.push(s@) + words_from(views_of(stack@)) =~= prev + (seq![s@] + words_from(views_of(stack@))));
                }
            }
        }
    }
    proof {
        assert(strings_of(words@) + words_from(views_of(stack@)) =~= strings_of(words@));
    }
    words
}

/// The counts of a spell check: words checked, and those not in the dictionary.
#[derive(Debug, Clone, Copy, PartialEq, Eq, Structural)]
pub struct Spellcheck {
    pub words: usize,
    pub misspellings: usize,
}

impl Spellcheck {
    /// No word checked yet.
    pub fn new() -> (r: Self)
        ensures
            r.words == 0,
            r.misspellings == 0,
    {
        Spellcheck { words: 0, misspellings: 0 }
    }

    /// Counts one more word, and one more misspelling unless the word was `known`.
    pub fn record(&mut self, known: bool)
        requires
            old(self).misspellings <= old(self).words < usize::MAX,
        ensures
            final(self).words == old(self).words + 1,
            final(self).misspellings == old(self).misspellings + if known {
                0int
            } else {
                1int
            },
            final(self).misspellings <= final(self).words,
    {
        self.words = self.words + 1;
        if !known {
            self.misspellings = self.misspellings + 1;
        }
    }
}

} // verus!
