//! A right-aligned pyramid of hashes.
use crate::prompt::{ask_integer, asked, integer_parser, lemma_asked_integer_range, ReadError};
use vstd::prelude::*;
use vstd::string::StringSliceAdditionalSpecFns;

verus! {

/// The tallest pyramid asked for.
pub const MAX_HEIGHT: u128 = 100;

/// `k` copies of the byte `b`.
pub open spec fn run(b: u8, k: nat) -> Seq<u8> {
    Seq::new(k, |i: int| b)
}

/// The first `rows` rows of a pyramid of height `height`: row `i` holds
/// `height - i` spaces, `i` hashes and a newline.
pub open spec fn pyramid_rows(height: nat, rows: nat) -> Seq<u8>
    decreases rows,
{
    if rows == 0 {
        Seq::empty()
    } else {
        pyramid_rows(height, (rows - 1) as nat) + run(32u8, (height - rows) as nat) + run(35u8, rows) + seq![10u8]
    }
}

/// Prompts with `Height: ` until a line holds a height from 0 to `MAX_HEIGHT`.
pub fn get_height(input: &mut &[u8], output: &mut Vec<u8>) -> (r: Result<u128, ReadError>)
    ensures
        asked(
            old(input)@,
            final(input)@,
            old(output)@,
            final(output)@,
            "Height: ".spec_bytes(),
            integer_parser(false, 0, MAX_HEIGHT as nat),
            match r {
                Ok(v) => Ok(v as int),
                Err(e) => Err(e),
            },
        ),
{
    let ghost s = input@;
    match ask_integer("Height: ", input, output, false, 0, MAX_HEIGHT) {
        Ok((neg, m)) => {
            proof {
                lemma_asked_integer_range(s, false, 0, MAX_HEIGHT as nat, if neg { -(m as int) } else { m as int });
            }
            Ok(m)
        },
        Err(e) => Err(e),
    }
}

/// Appends `k` copies of `b` to `output`.
fn push_run(output: &mut Vec<u8>, b: u8, k: u128)
    ensures
        final(output)@ == old(output)@ + run(b, k as nat),
{
    let ghost start = output@;
    let mut i: u128 = 0;
    while i < k
        invariant
            i <= k,
            output@ == start + run(b, i as nat),
        decreases k - i,
    {
        output.push(b);
        i = i + 1;
        proof {
            assert(output@ =~= start + run(b, i as nat));
        }
    }
}

/// Writes a pyramid of the given height.
pub fn pyramid(output: &mut Vec<u8>, height: u128) -> (r: Result<(), ReadError>)
    ensures
        final(output)@ == old(output)@ + pyramid_rows(height as nat, height as nat),
        r == Ok::<(), ReadError>(()),
{
    let ghost start = output@;
    let mut i: u128 = 0;
    while i < height
        invariant
            i <= height,
            output@ == start + pyramid_rows(height as nat, i as nat),
        decreases height - i,
    {
        i = i + 1;
        push_run(output, 32u8, height - i);
        push_run(output, 35u8, i);
        output.push(10u8);
        proof {
            assert(output@ =~= start + pyramid_rows(height as nat, i as nat));
        }
    }
    Ok(())
}

} // verus!
