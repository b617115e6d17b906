//! Greetings written to a byte buffer.
use crate::prompt::{decode_line, first_line, after_line, read_line, write_str, ReadError};
use vstd::prelude::*;
use vstd::string::StringSliceAdditionalSpecFns;
use vstd::utf8::valid_utf8;

verus! {

/// The classic greeting.
pub const DECLAMATION: &'static str = "hello, world\n";

/// Writes the greeting and says how many bytes it took.
pub fn declaim(output: &mut Vec<u8>) -> (r: Result<usize, ReadError>)
    ensures
        final(output)@ == old(output)@ + DECLAMATION.spec_bytes(),
        r == Ok::<usize, ReadError>(DECLAMATION.spec_bytes().len() as usize),
{
    let bytes = DECLAMATION.as_bytes();
    let ghost start = output@;
    let mut k: usize = 0;
    while k < bytes.len()
        invariant
            k <= bytes@.len(),
            bytes@ == DECLAMATION.spec_bytes(),
            output@ == start + bytes@.subrange(0, k as int),
        decreases bytes@.len() - k,
    {
        output.push(bytes[k]);
        k = k + 1;
        proof {
            assert(output@ =~= start + bytes@.subrange(0, k as int));
        }
    }
    proof {
        assert(bytes@.subrange(0, k as int) =~= bytes@);
    }
    Ok(bytes.len())
}

/// Asks for a name and greets it: the reply is `hello, `, the line read (its
/// newline included, if it had one) and a newline. Gives the length of the reply.
pub fn converse(input: &mut &[u8], output: &mut Vec<u8>) -> (r: Result<usize, ReadError>)
    ensures
        ({
            let line = first_line(old(input)@);
            let asked = old(output)@ + "What's your name? ".spec_bytes();
            &&& final(input)@ == after_line(old(input)@)
            &&& if valid_utf8(line) {
                let reply = "hello, ".spec_bytes() + line + seq![10u8];
                &&& final(output)@ == asked + reply
                &&& r == Ok::<usize, ReadError>(reply.len() as usize)
            } else {
                &&& final(output)@ == asked
                &&& r == Err::<usize, ReadError>(ReadError::InvalidUtf8)
            }
        }),
{
    write_str(output, "What's your name? ");
    let line = read_line(input);
    if decode_line(&line).is_none() {
        return Err(ReadError::InvalidUtf8);
    }
    let ghost before = output@;
    let start_len = output.len();
    let greeting = "hello, ";
    write_str(output, greeting);
    let mut k: usize = 0;
    while k < line.len()
        invariant
            k <= line@.len(),
            output@ == before + greeting.spec_bytes() + line@.subrange(0, k as int),
        decreases line@.len() - k,
    {
        output.push(line[k]);
        k = k + 1;
        proof {
            assert(output@ =~= before + greeting.spec_bytes() + line@.subrange(0, k as int));
        }
    }
    output.push(10u8);
    proof {
        assert(line@.subrange(0, k as int) =~= line@);
        assert(output@ =~= before + (greeting.spec_bytes() + line@ + seq![10u8]));
    }
    Ok(output.len() - start_len)
}

} // verus!
