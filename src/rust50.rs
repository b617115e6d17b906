//! Typed prompts: each writes its prompt and reads lines until one holds a value
//! of the wanted type, white space around it ignored.
use crate::prompt::{
    ask_integer, asked, bool_parser, char_parser, char_vec, integer_parser, lemma_asked_integer_range,
    dialog, lemma_line_len, next_line, repeat, signed_value, string_of, text_parser, trim, trim_chars,
    unfold_dialog, ReadError,
};
use vstd::prelude::*;
use vstd::string::StringSliceAdditionalSpecFns;

verus! {

/// Reads one line of text, white space around it removed; at the end of the
/// input that is the empty text.
pub fn get_string(prompt: &str, input: &mut &[u8], output: &mut Vec<u8>) -> (r: Result<String, ReadError>)
    ensures
        asked(
            old(input)@,
            final(input)@,
            old(output)@,
            final(output)@,
            prompt.spec_bytes(),
            text_parser(),
            match r {
                Ok(s) => Ok(s@),
                Err(e) => Err(e),
            },
        ),
{
    let ghost s = input@;
    let ghost out0 = output@;
    let res = next_line(prompt, input, output);
    proof {
        lemma_line_len(s);
        unfold_dialog(s, text_parser());
        assert(repeat(prompt.spec_bytes(), 0) =~= Seq::<u8>::empty());
        assert(repeat(prompt.spec_bytes(), 1) =~= prompt.spec_bytes());
    }
    let line = res?;
    let text = trim_chars(&char_vec(line.as_str()));
    Ok(string_of(&text))
}

/// Reads a `i8`.
pub fn get_i8(prompt: &str, input: &mut &[u8], output: &mut Vec<u8>) -> (r: Result<i8, ReadError>)
    ensures
        asked(
            old(input)@,
            final(input)@,
            old(output)@,
            final(output)@,
            prompt.spec_bytes(),
            integer_parser(true, (0x80) as nat, (0x7f) as nat),
            match r {
                Ok(v) => Ok(v as int),
                Err(e) => Err(e),
            },
        ),
{
    let ghost s = input@;
    match ask_integer(prompt, input, output, true, 0x80, 0x7f) {
        Ok((neg, m)) => {
            proof {
                lemma_asked_integer_range(s, true, (0x80) as nat, (0x7f) as nat, if neg { -(m as int) } else { m as int });
            }
            Ok(signed_value(neg, m) as i8)
        },
        Err(e) => Err(e),
    }
}

/// Reads a `i16`.
pub fn get_i16(prompt: &str, input: &mut &[u8], output: &mut Vec<u8>) -> (r: Result<i16, ReadError>)
    ensures
        asked(
            old(input)@,
            final(input)@,
            old(output)@,
            final(output)@,
            prompt.spec_bytes(),
            integer_parser(true, (0x8000) as nat, (0x7fff) as nat),
            match r {
                Ok(v) => Ok(v as int),
                Err(e) => Err(e),
            },
        ),
{
    let ghost s = input@;
    match ask_integer(prompt, input, output, true, 0x8000, 0x7fff) {
        Ok((neg, m)) => {
            proof {
                lemma_asked_integer_range(s, true, (0x8000) as nat, (0x7fff) as nat, if neg { -(m as int) } else { m as int });
            }
            Ok(signed_value(neg, m) as i16)
        },
        Err(e) => Err(e),
    }
}

/// Reads a `i32`.
pub fn get_i32(prompt: &str, input: &mut &[u8], output: &mut Vec<u8>) -> (r: Result<i32, ReadError>)
    ensures
        asked(
            old(input)@,
            final(input)@,
            old(output)@,
            final(output)@,
            prompt.spec_bytes(),
            integer_parser(true, (0x8000_0000) as nat, (0x7fff_ffff) as nat),
            match r {
                Ok(v) => Ok(v as int),
                Err(e) => Err(e),
            },
        ),
{
    let ghost s = input@;
    match ask_integer(prompt, input, output, true, 0x8000_0000, 0x7fff_ffff) {
        Ok((neg, m)) => {
            proof {
                lemma_asked_integer_range(s, true, (0x8000_0000) as nat, (0x7fff_ffff) as nat, if neg { -(m as int) } else { m as int });
            }
            Ok(signed_value(neg, m) as i32)
        },
        Err(e) => Err(e),
    }
}

/// Reads a `i64`.
pub fn get_i64(prompt: &str, input: &mut &[u8], output: &mut Vec<u8>) -> (r: Result<i64, ReadError>)
    ensures
        asked(
            old(input)@,
            final(input)@,
            old(output)@,
            final(output)@,
            prompt.spec_bytes(),
            integer_parser(true, (0x8000_0000_0000_0000) as nat, (0x7fff_ffff_ffff_ffff) as nat),
            match r {
                Ok(v) => Ok(v as int),
                Err(e) => Err(e),
            },
        ),
{
    let ghost s = input@;
    match ask_integer(prompt, input, output, true, 0x8000_0000_0000_0000, 0x7fff_ffff_ffff_ffff) {
        Ok((neg, m)) => {
            proof {
                lemma_asked_integer_range(s, true, (0x8000_0000_0000_0000) as nat, (0x7fff_ffff_ffff_ffff) as nat, if neg { -(m as int) } else { m as int });
            }
            Ok(signed_value(neg, m) as i64)
        },
        Err(e) => Err(e),
    }
}

/// Reads a `i128`.
pub fn get_i128(prompt: &str, input: &mut &[u8], output: &mut Vec<u8>) -> (r: Result<i128, ReadError>)
    ensures
        asked(
            old(input)@,
            final(input)@,
            old(output)@,
            final(output)@,
            prompt.spec_bytes(),
            integer_parser(true, (0x8000_0000_0000_0000_0000_0000_0000_0000) as nat, (0x7fff_ffff_ffff_ffff_ffff_ffff_ffff_ffff) as nat),
            match r {
                Ok(v) => Ok(v as int),
                Err(e) => Err(e),
            },
        ),
{
    let ghost s = input@;
    match ask_integer(prompt, input, output, true, 0x8000_0000_0000_0000_0000_0000_0000_0000, 0x7fff_ffff_ffff_ffff_ffff_ffff_ffff_ffff) {
        Ok((neg, m)) => {
            proof {
                lemma_asked_integer_range(s, true, (0x8000_0000_0000_0000_0000_0000_0000_0000) as nat, (0x7fff_ffff_ffff_ffff_ffff_ffff_ffff_ffff) as nat, if neg { -(m as int) } else { m as int });
            }
            Ok(signed_value(neg, m) as i128)
        },
        Err(e) => Err(e),
    }
}

/// Reads a `isize`.
pub fn get_isize(prompt: &str, input: &mut &[u8], output: &mut Vec<u8>) -> (r: Result<isize, ReadError>)
    ensures
        asked(
            old(input)@,
            final(input)@,
            old(output)@,
            final(output)@,
            prompt.spec_bytes(),
            integer_parser(true, (isize::MAX + 1) as nat, (isize::MAX) as nat),
            match r {
                Ok(v) => Ok(v as int),
                Err(e) => Err(e),
            },
        ),
{
    let ghost s = input@;
    match ask_integer(prompt, input, output, true, (isize::MAX as u128) + 1, isize::MAX as u128) {
        Ok((neg, m)) => {
            proof {
                lemma_asked_integer_range(s, true, (isize::MAX + 1) as nat, (isize::MAX) as nat, if neg { -(m as int) } else { m as int });
            }
            Ok(signed_value(neg, m) as isize)
        },
        Err(e) => Err(e),
    }
}

/// Reads a `u8`.
pub fn get_u8(prompt: &str, input: &mut &[u8], output: &mut Vec<u8>) -> (r: Result<u8, ReadError>)
    ensures
        asked(
            old(input)@,
            final(input)@,
            old(output)@,
            final(output)@,
            prompt.spec_bytes(),
            integer_parser(false, (0) as nat, (0xff) as nat),
            match r {
                Ok(v) => Ok(v as int),
                Err(e) => Err(e),
            },
        ),
{
    let ghost s = input@;
    match ask_integer(prompt, input, output, false, 0, 0xff) {
        Ok((neg, m)) => {
            proof {
                lemma_asked_integer_range(s, false, (0) as nat, (0xff) as nat, if neg { -(m as int) } else { m as int });
            }
            Ok(m as u8)
        },
        Err(e) => Err(e),
    }
}

/// Reads a `u16`.
pub fn get_u16(prompt: &str, input: &mut &[u8], output: &mut Vec<u8>) -> (r: Result<u16, ReadError>)
    ensures
        asked(
            old(input)@,
            final(input)@,
            old(output)@,
            final(output)@,
            prompt.spec_bytes(),
            integer_parser(false, (0) as nat, (0xffff) as nat),
            match r {
                Ok(v) => Ok(v as int),
                Err(e) => Err(e),
            },
        ),
{
    let ghost s = input@;
    match ask_integer(prompt, input, output, false, 0, 0xffff) {
        Ok((neg, m)) => {
            proof {
                lemma_asked_integer_range(s, false, (0) as nat, (0xffff) as nat, if neg { -(m as int) } else { m as int });
            }
            Ok(m as u16)
        },
        Err(e) => Err(e),
    }
}

/// Reads a `u32`.
pub fn get_u32(prompt: &str, input: &mut &[u8], output: &mut Vec<u8>) -> (r: Result<u32, ReadError>)
    ensures
        asked(
            old(input)@,
            final(input)@,
            old(output)@,
            final(output)@,
            prompt.spec_bytes(),
            integer_parser(false, (0) as nat, (0xffff_ffff) as nat),
            match r {
                Ok(v) => Ok(v as int),
                Err(e) => Err(e),
            },
        ),
{
    let ghost s = input@;
    match ask_integer(prompt, input, output, false, 0, 0xffff_ffff) {
        Ok((neg, m)) => {
            proof {
                lemma_asked_integer_range(s, false, (0) as nat, (0xffff_ffff) as nat, if neg { -(m as int) } else { m as int });
            }
            Ok(m as u32)
        },
        Err(e) => Err(e),
    }
}

/// Reads a `u64`.
pub fn get_u64(prompt: &str, input: &mut &[u8], output: &mut Vec<u8>) -> (r: Result<u64, ReadError>)
    ensures
        asked(
            old(input)@,
            final(input)@,
            old(output)@,
            final(output)@,
            prompt.spec_bytes(),
            integer_parser(false, (0) as nat, (0xffff_ffff_ffff_ffff) as nat),
            match r {
                Ok(v) => Ok(v as int),
                Err(e) => Err(e),
            },
        ),
{
    let ghost s = input@;
    match ask_integer(prompt, input, output, false, 0, 0xffff_ffff_ffff_ffff) {
        Ok((neg, m)) => {
            proof {
                lemma_asked_integer_range(s, false, (0) as nat, (0xffff_ffff_ffff_ffff) as nat, if neg { -(m as int) } else { m as int });
            }
            Ok(m as u64)
        },
        Err(e) => Err(e),
    }
}

/// Reads a `u128`.
pub fn get_u128(prompt: &str, input: &mut &[u8], output: &mut Vec<u8>) -> (r: Result<u128, ReadError>)
    ensures
        asked(
            old(input)@,
            final(input)@,
            old(output)@,
            final(output)@,
            prompt.spec_bytes(),
            integer_parser(false, (0) as nat, (0xffff_ffff_ffff_ffff_ffff_ffff_ffff_ffff) as nat),
            match r {
                Ok(v) => Ok(v as int),
                Err(e) => Err(e),
            },
        ),
{
    let ghost s = input@;
    match ask_integer(prompt, input, output, false, 0, 0xffff_ffff_ffff_ffff_ffff_ffff_ffff_ffff) {
        Ok((neg, m)) => {
            proof {
                lemma_asked_integer_range(s, false, (0) as nat, (0xffff_ffff_ffff_ffff_ffff_ffff_ffff_ffff) as nat, if neg { -(m as int) } else { m as int });
            }
            Ok(m as u128)
        },
        Err(e) => Err(e),
    }
}

/// Reads a `usize`.
pub fn get_usize(prompt: &str, input: &mut &[u8], output: &mut Vec<u8>) -> (r: Result<usize, ReadError>)
    ensures
        asked(
            old(input)@,
            final(input)@,
            old(output)@,
            final(output)@,
            prompt.spec_bytes(),
            integer_parser(false, (0) as nat, (usize::MAX) as nat),
            match r {
                Ok(v) => Ok(v as int),
                Err(e) => Err(e),
            },
        ),
{
    let ghost s = input@;
    match ask_integer(prompt, input, output, false, 0, usize::MAX as u128) {
        Ok((neg, m)) => {
            proof {
                lemma_asked_integer_range(s, false, (0) as nat, (usize::MAX) as nat, if neg { -(m as int) } else { m as int });
            }
            Ok(m as usize)
        },
        Err(e) => Err(e),
    }
}

/// Reads a single character.
pub fn get_char(prompt: &str, input: &mut &[u8], output: &mut Vec<u8>) -> (r: Result<char, ReadError>)
    ensures
        asked(old(input)@, final(input)@, old(output)@, final(output)@, prompt.spec_bytes(), char_parser(), r),
{
    let ghost parse = char_parser();
    let ghost s0 = input@;
    let ghost out0 = output@;
    let ghost mut shown: nat = 0;
    loop
        invariant
            s0 == old(input)@,
            out0 == old(output)@,
            parse == char_parser(),
            dialog(s0, parse) == ({
                let d = dialog(input@, parse);
                (d.0, d.1 + shown, d.2)
            }),
            output@ == out0 + repeat(prompt.spec_bytes(), shown),
        decreases input@.len(),
    {
        let ghost s = input@;
        proof {
            lemma_line_len(s);
            assert(out0 + repeat(prompt.spec_bytes(), shown + 1) =~= out0 + repeat(prompt.spec_bytes(), shown)
                + prompt.spec_bytes());
        }
        let at_end = input.len() == 0;
        let res = next_line(prompt, input, output);
        proof {
            shown = shown + 1;
            unfold_dialog(s, parse);
        }
        let line = match res {
            Ok(l) => l,
            Err(e) => {
                return Err(e);
            },
        };
        let text = trim_chars(&char_vec(line.as_str()));
        if text.len() == 1 {
            return Ok(text[0]);
        }
        if at_end {
            return Err(ReadError::EndOfInput);
        }
    }
}

/// Reads `true` or `false`.
pub fn get_bool(prompt: &str, input: &mut &[u8], output: &mut Vec<u8>) -> (r: Result<bool, ReadError>)
    ensures
        asked(old(input)@, final(input)@, old(output)@, final(output)@, prompt.spec_bytes(), bool_parser(), r),
{
    let ghost parse = bool_parser();
    let ghost s0 = input@;
    let ghost out0 = output@;
    let ghost mut shown: nat = 0;
    loop
        invariant
            s0 == old(input)@,
            out0 == old(output)@,
            parse == bool_parser(),
            dialog(s0, parse) == ({
                let d = dialog(input@, parse);
                (d.0, d.1 + shown, d.2)
            }),
            output@ == out0 + repeat(prompt.spec_bytes(), shown),
        decreases input@.len(),
    {
        let ghost s = input@;
        proof {
            lemma_line_len(s);
            assert(out0 + repeat(prompt.spec_bytes(), shown + 1) =~= out0 + repeat(prompt.spec_bytes(), shown)
                + prompt.spec_bytes());
        }
        let at_end = input.len() == 0;
        let res = next_line(prompt, input, output);
        proof {
            shown = shown + 1;
            unfold_dialog(s, parse);
        }
        let line = match res {
            Ok(l) => l,
            Err(e) => {
                return Err(e);
            },
        };
        let text = trim_chars(&char_vec(line.as_str()));
        if text.len() == 4 && text[0] == 't' && text[1] == 'r' && text[2] == 'u' && text[3] == 'e' {
            proof {
                assert(text@ =~= seq!['t', 'r', 'u', 'e']);
            }
            return Ok(true);
        }
        if text.len() == 5 && text[0] == 'f' && text[1] == 'a' && text[2] == 'l' && text[3] == 's' && text[4] == 'e' {
            proof {
                assert(text@ =~= seq!['f', 'a', 'l', 's', 'e']);
            }
            return Ok(false);
        }
        proof {
            assert(text@ != seq!['t', 'r', 'u', 'e']) by {
                if text@ == seq!['t', 'r', 'u', 'e'] {
                    assert(text@.len() == 4);
                    assert(text@[0] == 't' && text@[1] == 'r' && text@[2] == 'u' && text@[3] == 'e');
                }
            }
            assert(text@ != seq!['f', 'a', 'l', 's', 'e']) by {
                if text@ == seq!['f', 'a', 'l', 's', 'e'] {
                    assert(text@.len() == 5);
                    assert(text@[0] == 'f' && text@[1] == 'a' && text@[2] == 'l' && text@[3] == 's' && text@[4] == 'e');
                }
            }
        }
        if at_end {
            return Err(ReadError::EndOfInput);
        }
    }
}

} // verus!
