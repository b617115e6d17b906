//! Prompting for typed values over a byte stream.
//!
//! A prompt is written to the output, one line is read from the input and, with
//! surrounding white space trimmed, parsed as the wanted type; on failure the prompt
//! is shown again and the next line is read. At the end of the input the line read
//! is empty: it gives a value if the empty text is one (it is for text), and an
//! error otherwise, where a reader of a terminal would go on asking forever.
//! A line that is not valid UTF-8 is an error too.
use vstd::prelude::*;
use vstd::string::{StrSliceExecFns, StringSliceAdditionalSpecFns};
use vstd::utf8::{decode_utf8, valid_utf8};

verus! {

/// Why no value could be read.
#[derive(Debug, Clone, Copy, PartialEq, Eq, Structural)]
pub enum ReadError {
    /// The input ended, and an empty line holds no value of the wanted type.
    EndOfInput,
    /// A line was not valid UTF-8.
    InvalidUtf8,
}

/// The length of the line that starts at `0` and has not ended before `k`: up to
/// and with the first newline at or after `k`, or to the end of `s`.
pub open spec fn line_len_from(s: Seq<u8>, k: nat) -> nat
    decreases s.len() - k,
{
    if k >= s.len() {
        s.len()
    } else if s[k as int] == 10u8 {
        k + 1
    } else {
        line_len_from(s, k + 1)
    }
}

/// The length of the first line of `s`, its newline included.
pub open spec fn line_len(s: Seq<u8>) -> nat {
    line_len_from(s, 0)
}

/// The first line of `s`, its newline included; empty only when `s` is.
pub open spec fn first_line(s: Seq<u8>) -> Seq<u8> {
    s.subrange(0, line_len(s) as int)
}

/// What follows the first line of `s`.
pub open spec fn after_line(s: Seq<u8>) -> Seq<u8> {
    s.subrange(line_len(s) as int, s.len() as int)
}

proof fn lemma_line_len_from(s: Seq<u8>, k: nat)
    requires
        k <= s.len(),
    ensures
        k <= line_len_from(s, k) <= s.len(),
        k < s.len() ==> k < line_len_from(s, k),
    decreases s.len() - k,
{
    if k < s.len() && s[k as int] != 10u8 {
        lemma_line_len_from(s, k + 1);
    }
}

/// The first line of `s` is between one byte and all of `s` long, when `s` is not empty.
pub proof fn lemma_line_len(s: Seq<u8>)
    ensures
        line_len(s) <= s.len(),
        s.len() > 0 ==> line_len(s) > 0,
{
    lemma_line_len_from(s, 0);
}

/// `p` written `k` times.
pub open spec fn repeat(p: Seq<u8>, k: nat) -> Seq<u8>
    decreases k,
{
    if k == 0 {
        Seq::empty()
    } else {
        repeat(p, (k - 1) as nat) + p
    }
}

/// The conversation on the input `s`, where `parse` reads a value from a line:
/// what comes of it, how many prompts are shown, and what is left of the input.
pub open spec fn dialog<T>(s: Seq<u8>, parse: spec_fn(Seq<char>) -> Option<T>) -> (Result<T, ReadError>, nat, Seq<u8>)
    decreases s.len(),
{
    let line = first_line(s);
    let rest = after_line(s);
    proof {
        lemma_line_len(s);
    }
    if s.len() == 0 {
        match parse(Seq::empty()) {
            Some(v) => (Ok(v), 1, s),
            None => (Err(ReadError::EndOfInput), 1, s),
        }
    } else if !valid_utf8(line) {
        (Err(ReadError::InvalidUtf8), 1, rest)
    } else {
        match parse(decode_utf8(line)) {
            Some(v) => (Ok(v), 1, rest),
            None => {
                let next = dialog(rest, parse);
                (next.0, next.1 + 1, next.2)
            },
        }
    }
}

/// The white space characters of Unicode, which trimming removes.
pub open spec fn is_white_space(c: char) -> bool {
    ('\t' <= c && c <= '\r') || c == ' ' || c == '\u{85}' || c == '\u{a0}' || c == '\u{1680}' || (
    '\u{2000}' <= c && c <= '\u{200a}') || c == '\u{2028}' || c == '\u{2029}' || c == '\u{202f}' || c
        == '\u{205f}' || c == '\u{3000}'
}

/// `s` without its leading white space.
pub open spec fn trim_start(s: Seq<char>) -> Seq<char>
    decreases s.len(),
{
    if s.len() > 0 && is_white_space(s[0]) {
        trim_start(s.drop_first())
    } else {
        s
    }
}

/// `s` without its trailing white space.
pub open spec fn trim_end(s: Seq<char>) -> Seq<char>
    decreases s.len(),
{
    if s.len() > 0 && is_white_space(s.last()) {
        trim_end(s.drop_last())
    } else {
        s
    }
}

/// `s` without leading and trailing white space.
pub open spec fn trim(s: Seq<char>) -> Seq<char> {
    trim_end(trim_start(s))
}

/// `s` is a non-empty run of ASCII digits.
pub open spec fn is_digits(s: Seq<char>) -> bool {
    s.len() > 0 && forall|i: int| 0 <= i < s.len() ==> '0' <= #[trigger] s[i] && s[i] <= '9'
}

/// The number that the decimal digits `s` write.
pub open spec fn digits_value(s: Seq<char>) -> nat
    decreases s.len(),
{
    if s.len() == 0 {
        0
    } else {
        (10 * digits_value(s.drop_last()) + (s.last() as int - '0' as int)) as nat
    }
}

/// The integer that `s` writes in decimal: an optional sign (`-` only where
/// `signed`), then digits, with a value in `-neg_limit ..= pos_limit`.
pub open spec fn parse_integer(s: Seq<char>, signed: bool, neg_limit: nat, pos_limit: nat) -> Option<int> {
    if signed && s.len() > 0 && s[0] == '-' {
        let b = s.drop_first();
        if is_digits(b) && digits_value(b) <= neg_limit {
            Some(-(digits_value(b) as int))
        } else {
            None
        }
    } else {
        let b = if s.len() > 0 && s[0] == '+' {
            s.drop_first()
        } else {
            s
        };
        if is_digits(b) && digits_value(b) <= pos_limit {
            Some(digits_value(b) as int)
        } else {
            None
        }
    }
}

/// Reads a line as an integer of the given range, white space around it ignored.
pub open spec fn integer_parser(signed: bool, neg_limit: nat, pos_limit: nat) -> spec_fn(Seq<char>) -> Option<int> {
    |l: Seq<char>| parse_integer(trim(l), signed, neg_limit, pos_limit)
}

/// Reads a line as text, white space around it removed.
pub open spec fn text_parser() -> spec_fn(Seq<char>) -> Option<Seq<char>> {
    |l: Seq<char>| Some(trim(l))
}

/// Reads a line as one character, white space around it ignored.
pub open spec fn char_parser() -> spec_fn(Seq<char>) -> Option<char> {
    |l: Seq<char>| if trim(l).len() == 1 { Some(trim(l)[0]) } else { None }
}

/// Reads a line as `true` or `false`, white space around it ignored.
pub open spec fn bool_parser() -> spec_fn(Seq<char>) -> Option<bool> {
    |l: Seq<char>|
        if trim(l) == seq!['t', 'r', 'u', 'e'] {
            Some(true)
        } else if trim(l) == seq!['f', 'a', 'l', 's', 'e'] {
            Some(false)
        } else {
            None
        }
}

/// Appends the bytes of `s` to `output`.
pub fn write_str(output: &mut Vec<u8>, s: &str)
    ensures
        final(output)@ == old(output)@ + s.spec_bytes(),
{
    let bytes = s.as_bytes();
    let ghost start = output@;
    let mut k: usize = 0;
    while k < bytes.len()
        invariant
            k <= bytes@.len(),
            bytes@ == s.spec_bytes(),
            output@ == start + bytes@.subrange(0, k as int),
        decreases bytes@.len() - k,
    {
        output.push(bytes[k]);
        k = k + 1;
        proof {
            assert(output@ =~= start + bytes@.subrange(0, k as int));
        }
    }
    proof {
        assert(bytes@.subrange(0, k as int) =~= bytes@);
    }
}

/// Takes the first line, its newline included, off the front of `input`.
pub fn read_line(input: &mut &[u8]) -> (r: Vec<u8>)
    ensures
        r@ == first_line(old(input)@),
        final(input)@ == after_line(old(input)@),
{
    let all: &[u8] = *input;
    let ghost s = all@;
    let mut r: Vec<u8> = Vec::new();
    let mut k: usize = 0;
    let mut done = false;
    while k < all.len() && !done
        invariant
            k <= s.len(),
            all@ == s,
            r@ == s.subrange(0, k as int),
            !done ==> line_len(s) == line_len_from(s, k as nat),
            done ==> line_len(s) == k,
        decreases s.len() - k,
    {
        let b = all[k];
        r.push(b);
        k = k + 1;
        if b == 10u8 {
            done = true;
        }
        proof {
            assert(r@ =~= s.subrange(0, k as int));
        }
    }
    *input = &all[k..all.len()];
    r
}

/// Relies on `std::str::from_utf8`: it accepts exactly the valid UTF-8 byte
/// sequences, and the text it gives back holds the characters they encode.
#[verifier::external_body]
pub(crate) fn decode_line(line: &Vec<u8>) -> (r: Option<String>)
    ensures
        r.is_some() == valid_utf8(line@),
        r.is_some() ==> r.unwrap()@ == decode_utf8(line@),
{
    std::str::from_utf8(line.as_slice()).ok().map(|s| s.to_string())
}

/// Writes the prompt and reads the next line as text; at the end of the input the
/// line is empty.
pub fn next_line(prompt: &str, input: &mut &[u8], output: &mut Vec<u8>) -> (r: Result<String, ReadError>)
    ensures
        final(output)@ == old(output)@ + prompt.spec_bytes(),
        old(input)@.len() == 0 ==> r.is_ok() && r.unwrap()@ == Seq::<char>::empty() && final(input)@ == old(input)@,
        old(input)@.len() > 0 ==> final(input)@ == after_line(old(input)@) && match r {
            Ok(l) => valid_utf8(first_line(old(input)@)) && l@ == decode_utf8(first_line(old(input)@)),
            Err(e) => !valid_utf8(first_line(old(input)@)) && e == ReadError::InvalidUtf8,
        },
{
    write_str(output, prompt);
    let ghost s = input@;
    if input.len() == 0 {
        return Ok(String::new());
    }
    let line = read_line(input);
    match decode_line(&line) {
        Some(l) => Ok(l),
        None => Err(ReadError::InvalidUtf8),
    }
}

/// The characters of `s`.
pub fn char_vec(s: &str) -> (r: Vec<char>)
    ensures
        r@ == s@,
{
    let n = s.unicode_len();
    let mut r: Vec<char> = Vec::new();
    let mut k: usize = 0;
    while k < n
        invariant
            k <= n,
            n == s@.len(),
            r@ == s@.subrange(0, k as int),
        decreases n - k,
    {
        r.push(s.get_char(k));
        k = k + 1;
        proof {
            assert(r@ =~= s@.subrange(0, k as int));
        }
    }
    proof {
        assert(r@ =~= s@);
    }
    r
}

/// Whether `c` is white space.
pub fn white_space(c: char) -> (r: bool)
    ensures
        r == is_white_space(c),
{
    ('\t' <= c && c <= '\r') || c == ' ' || c == '\u{85}' || c == '\u{a0}' || c == '\u{1680}' || (
    '\u{2000}' <= c && c <= '\u{200a}') || c == '\u{2028}' || c == '\u{2029}' || c == '\u{202f}' || c
        == '\u{205f}' || c == '\u{3000}'
}

proof fn lemma_trim_start(s: Seq<char>, a: int)
    requires
        0 <= a <= s.len(),
        forall|i: int| 0 <= i < a ==> is_white_space(#[trigger] s[i]),
        a < s.len() ==> !is_white_space(s[a]),
    ensures
        trim_start(s) == s.subrange(a, s.len() as int),
    decreases a,
{
    if a == 0 {
        assert(s.subrange(0, s.len() as int) =~= s);
    } else {
        let t = s.drop_first();
        assert forall|i: int| 0 <= i < a - 1 implies is_white_space(#[trigger] t[i]) by {
            assert(t[i] == s[i + 1]);
        }
        lemma_trim_start(t, a - 1);
        assert(t.subrange(a - 1, t.len() as int) =~= s.subrange(a, s.len() as int));
    }
}

proof fn lemma_trim_end(s: Seq<char>, b: int)
    requires
        0 <= b <= s.len(),
        forall|i: int| b <= i < s.len() ==> is_white_space(#[trigger] s[i]),
        b > 0 ==> !is_white_space(s[b - 1]),
    ensures
        trim_end(s) == s.subrange(0, b),
    decreases s.len() - b,
{
    if b == s.len() {
        assert(s.subrange(0, b) =~= s);
    } else {
        let t = s.drop_last();
        lemma_trim_end(t, b);
        assert(t.subrange(0, b) =~= s.subrange(0, b));
    }
}

/// `s` without leading and trailing white space.
pub fn trim_chars(s: &Vec<char>) -> (r: Vec<char>)
    ensures
        r@ == trim(s@),
{
    let n = s.len();
    let mut a: usize = 0;
    while a < n && white_space(s[a])
        invariant
            a <= n,
            n == s@.len(),
            forall|i: int| 0 <= i < a ==> is_white_space(#[trigger] s@[i]),
        decreases n - a,
    {
        a = a + 1;
    }
    proof {
        lemma_trim_start(s@, a as int);
    }
    let ghost t = s@.subrange(a as int, n as int);
    let mut b: usize = n;
    while b > a && white_space(s[b - 1])
        invariant
            a <= b <= n,
            n == s@.len(),
            t == s@.subrange(a as int, n as int),
            forall|i: int| b <= i < n ==> is_white_space(#[trigger] s@[i]),
        decreases b,
    {
        b = b - 1;
    }
    proof {
        assert forall|i: int| b - a <= i < t.len() implies is_white_space(#[trigger] t[i]) by {
            assert(t[i] == s@[i + a]);
        }
        lemma_trim_end(t, b - a);
        assert(t.subrange(0, b - a) =~= s@.subrange(a as int, b as int));
    }
    let mut r: Vec<char> = Vec::new();
    let mut k: usize = a;
    while k < b
        invariant
            a <= k <= b <= n,
            n == s@.len(),
            r@ == s@.subrange(a as int, k as int),
        decreases b - k,
    {
        r.push(s[k]);
        k = k + 1;
        proof {
            assert(r@ =~= s@.subrange(a as int, k as int));
        }
    }
    r
}

proof fn lemma_digits_prefix(s: Seq<char>, k: int)
    requires
        is_digits(s),
        0 <= k <= s.len(),
    ensures
        digits_value(s.subrange(0, k)) <= digits_value(s),
    decreases s.len() - k,
{
    if k < s.len() {
        let t = s.subrange(0, k + 1);
        assert(t.drop_last() =~= s.subrange(0, k));
        assert(t.last() == s[k] && '0' <= s[k]);
        assert(digits_value(s.subrange(0, k)) <= digits_value(t));
        if k + 1 < s.len() {
            assert(is_digits(s));
            lemma_digits_prefix(s, k + 1);
        } else {
            assert(t =~= s);
        }
    } else {
        assert(s.subrange(0, k) =~= s);
    }
}

/// The number written by the digits `s[start..]`, if they are all digits, there is
/// at least one, and the number is at most `limit`.
fn parse_digits(s: &Vec<char>, start: usize, limit: u128) -> (r: Option<u128>)
    requires
        start <= s@.len(),
    ensures
        ({
            let b = s@.subrange(start as int, s@.len() as int);
            match r {
                Some(m) => is_digits(b) && digits_value(b) <= limit && m == digits_value(b),
                None => !(is_digits(b) && digits_value(b) <= limit),
            }
        }),
{
    let n = s.len();
    let ghost b = s@.subrange(start as int, n as int);
    if start == n {
        return None;
    }
    let mut v: u128 = 0;
    let mut k: usize = start;
    while k < n
        invariant
            start <= k <= n,
            n == s@.len(),
            b == s@.subrange(start as int, n as int),
            v == digits_value(s@.subrange(start as int, k as int)),
            v <= limit,
            forall|i: int| start <= i < k ==> '0' <= #[trigger] s@[i] && s@[i] <= '9',
        decreases n - k,
    {
        let c = s[k];
        proof {
            assert(s@.subrange(start as int, k as int + 1).drop_last() =~= s@.subrange(start as int, k as int));
        }
        if c < '0' || c > '9' {
            proof {
                assert(b[k - start] == c);
            }
            return None;
        }
        let d = (c as u32 - '0' as u32) as u128;
        let next = match v.checked_mul(10) {
            Some(t) => t.checked_add(d),
            None => None,
        };
        match next {
            Some(w) if w <= limit => {
                v = w;
            },
            _ => {
                proof {
                    if is_digits(b) {
                        lemma_digits_prefix(b, k - start + 1);
                        assert(b.subrange(0, k - start + 1) =~= s@.subrange(start as int, k as int + 1));
                    }
                }
                return None;
            },
        }
        k = k + 1;
    }
    proof {
        assert(b =~= s@.subrange(start as int, k as int));
    }
    Some(v)
}

/// Reads `s` as a decimal integer in `-neg_limit ..= pos_limit`: whether it is
/// negative, and its absolute value.
pub fn parse_int(s: &Vec<char>, signed: bool, neg_limit: u128, pos_limit: u128) -> (r: Option<(bool, u128)>)
    ensures
        match r {
            Some((neg, m)) => parse_integer(s@, signed, neg_limit as nat, pos_limit as nat) == Some(
                if neg {
                    -(m as int)
                } else {
                    m as int
                },
            ),
            None => parse_integer(s@, signed, neg_limit as nat, pos_limit as nat).is_none(),
        },
{
    let n = s.len();
    if signed && n > 0 && s[0] == '-' {
        proof {
            assert(s@.subrange(1, n as int) =~= s@.drop_first());
        }
        match parse_digits(s, 1, neg_limit) {
            Some(m) => Some((true, m)),
            None => None,
        }
    } else {
        let start: usize = if n > 0 && s[0] == '+' {
            1
        } else {
            0
        };
        proof {
            assert(s@.subrange(1, n as int) =~= s@.drop_first());
            assert(s@.subrange(0, n as int) =~= s@);
        }
        match parse_digits(s, start, pos_limit) {
            Some(m) => Some((false, m)),
            None => None,
        }
    }
}

/// Prompts until a line reads as an integer in `-neg_limit ..= pos_limit`.
pub fn ask_integer(prompt: &str, input: &mut &[u8], output: &mut Vec<u8>, signed: bool, neg_limit: u128, pos_limit: u128) -> (r: Result<(bool, u128), ReadError>)
    ensures
        ({
            let d = dialog(old(input)@, integer_parser(signed, neg_limit as nat, pos_limit as nat));
            &&& final(input)@ == d.2
            &&& final(output)@ == old(output)@ + repeat(prompt.spec_bytes(), d.1)
            &&& match r {
                Ok((neg, m)) => d.0 == Ok::<int, ReadError>(if neg { -(m as int) } else { m as int }),
                Err(e) => d.0 == Err::<int, ReadError>(e),
            }
        }),
{
    let ghost parse = integer_parser(signed, neg_limit as nat, pos_limit as nat);
    let ghost s0 = input@;
    let ghost out0 = output@;
    let ghost mut shown: nat = 0;
    loop
        invariant
            s0 == old(input)@,
            out0 == old(output)@,
            parse == integer_parser(signed, neg_limit as nat, pos_limit as nat),
            dialog(s0, parse) == ({
                let d = dialog(input@, parse);
                (d.0, d.1 + shown, d.2)
            }),
            output@ == out0 + repeat(prompt.spec_bytes(), shown),
        decreases input@.len(),
    {
        let ghost s = input@;
        proof {
            lemma_line_len(s);
            assert(out0 + repeat(prompt.spec_bytes(), shown + 1) =~= out0 + repeat(prompt.spec_bytes(), shown) + prompt.spec_bytes());
        }
        let at_end = input.len() == 0;
        let res = next_line(prompt, input, output);
        proof {
            shown = shown + 1;
            unfold_dialog(s, parse);
        }
        let line = match res {
            Ok(l) => l,
            Err(e) => {
                return Err(e);
            },
        };
        let chars = trim_chars(&char_vec(line.as_str()));
        let parsed = parse_int(&chars, signed, neg_limit, pos_limit);
        proof {
            assert(parse(line@) == parse_integer(trim(line@), signed, neg_limit as nat, pos_limit as nat));
        }
        match parsed {
            Some(v) => {
                return Ok(v);
            },
            None => {},
        }
        if at_end {
            return Err(ReadError::EndOfInput);
        }
    }
}

/// The value `-m` (when `neg`) or `m`, as an `i128`.
pub fn signed_value(neg: bool, m: u128) -> (r: i128)
    requires
        neg ==> m <= 0x8000_0000_0000_0000_0000_0000_0000_0000,
        !neg ==> m <= 0x7fff_ffff_ffff_ffff_ffff_ffff_ffff_ffff,
    ensures
        r == if neg {
            -(m as int)
        } else {
            m as int
        },
{
    if neg {
        if m == 0 {
            0
        } else {
            -((m - 1) as i128) - 1
        }
    } else {
        m as i128
    }
}

/// What `dialog` gives for the input `before` and `parse`: the input left is `after`,
/// the output grew by one prompt per line read, and the answer is `answer`.
pub open spec fn asked<T>(
    before: Seq<u8>,
    after: Seq<u8>,
    out_before: Seq<u8>,
    out_after: Seq<u8>,
    prompt: Seq<u8>,
    parse: spec_fn(Seq<char>) -> Option<T>,
    answer: Result<T, ReadError>,
) -> bool {
    let d = dialog(before, parse);
    &&& after == d.2
    &&& out_after == out_before + repeat(prompt, d.1)
    &&& answer == d.0
}

/// A value that the conversation ends with is one that `parse` gives for some line.
pub proof fn lemma_dialog_value<T>(s: Seq<u8>, parse: spec_fn(Seq<char>) -> Option<T>, v: T)
    requires
        dialog(s, parse).0 == Ok::<T, ReadError>(v),
    ensures
        exists|l: Seq<char>| #[trigger] parse(l) == Some(v),
    decreases s.len(),
{
    lemma_line_len(s);
    let line = first_line(s);
    if s.len() > 0 && valid_utf8(line) {
        if parse(decode_utf8(line)) is None {
            lemma_dialog_value(after_line(s), parse, v);
        }
    }
}

/// An integer read by the conversation lies in its range.
pub proof fn lemma_asked_integer_range(s: Seq<u8>, signed: bool, neg_limit: nat, pos_limit: nat, v: int)
    requires
        dialog(s, integer_parser(signed, neg_limit, pos_limit)).0 == Ok::<int, ReadError>(v),
    ensures
        -(neg_limit as int) <= v <= pos_limit,
        !signed ==> 0 <= v,
{
    lemma_dialog_value(s, integer_parser(signed, neg_limit, pos_limit), v);
    let l = choose|l: Seq<char>| #[trigger] integer_parser(signed, neg_limit, pos_limit)(l) == Some(v);
    assert(parse_integer(trim(l), signed, neg_limit, pos_limit) == Some(v));
}

/// Relies on `String::push`: the character is appended at the end.
#[verifier::external_body]
pub(crate) fn push_char(s: &mut String, c: char)
    ensures
        final(s)@ == old(s)@.push(c),
{
    s.push(c);
}

/// The text made of the characters `chars`.
pub fn string_of(chars: &Vec<char>) -> (r: String)
    ensures
        r@ == chars@,
{
    let mut r = String::new();
    let mut k: usize = 0;
    while k < chars.len()
        invariant
            k <= chars@.len(),
            r@ == chars@.subrange(0, k as int),
        decreases chars@.len() - k,
    {
        push_char(&mut r, chars[k]);
        k = k + 1;
        proof {
            assert(r@ =~= chars@.subrange(0, k as int));
        }
    }
    proof {
        assert(chars@.subrange(0, k as int) =~= chars@);
    }
    r
}

/// One step of the conversation on a non-empty input, or its end on an empty one.
pub proof fn unfold_dialog<T>(s: Seq<u8>, parse: spec_fn(Seq<char>) -> Option<T>)
    ensures
        s.len() == 0 ==> dialog(s, parse) == match parse(Seq::empty()) {
            Some(v) => (Ok(v), 1nat, s),
            None => (Err::<T, ReadError>(ReadError::EndOfInput), 1nat, s),
        },
        s.len() > 0 && !valid_utf8(first_line(s)) ==> dialog(s, parse) == (Err::<T, ReadError>(ReadError::InvalidUtf8), 1nat, after_line(s)),
        s.len() > 0 && valid_utf8(first_line(s)) ==> dialog(s, parse) == match parse(decode_utf8(first_line(s))) {
            Some(v) => (Ok(v), 1nat, after_line(s)),
            None => {
                let next = dialog(after_line(s), parse);
                (next.0, next.1 + 1, next.2)
            },
        },
{
}

} // verus!
