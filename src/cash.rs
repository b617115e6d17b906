//! Making change with the fewest coins: quarters, dimes, nickels and pennies.
use crate::prompt::{ask_integer, asked, integer_parser, lemma_asked_integer_range, ReadError};
use vstd::prelude::*;
use vstd::string::StringSliceAdditionalSpecFns;

verus! {

/// The number of coins the greedy method gives for `cents`: as many quarters as
/// fit, then dimes, then nickels, then pennies.
pub open spec fn greedy_coins(cents: nat) -> nat {
    let after_quarters = cents % 25;
    let after_dimes = after_quarters % 10;
    cents / 25 + after_quarters / 10 + after_dimes / 5 + after_dimes % 5
}

/// Prompts with `Change owed: ` until a line holds a whole number of cents.
pub fn get_cents(input: &mut &[u8], output: &mut Vec<u8>) -> (r: Result<u128, ReadError>)
    ensures
        asked(
            old(input)@,
            final(input)@,
            old(output)@,
            final(output)@,
            "Change owed: ".spec_bytes(),
            integer_parser(false, 0, u128::MAX as nat),
            match r {
                Ok(v) => Ok(v as int),
                Err(e) => Err(e),
            },
        ),
{
    let ghost s = input@;
    match ask_integer("Change owed: ", input, output, false, 0, u128::MAX) {
        Ok((neg, m)) => {
            proof {
                lemma_asked_integer_range(s, false, 0, u128::MAX as nat, if neg { -(m as int) } else { m as int });
            }
            Ok(m)
        },
        Err(e) => Err(e),
    }
}

/// The fewest coins that make `cents`, counted the greedy way.
pub fn calculate_coins(cents: u128) -> (r: u128)
    ensures
        r == greedy_coins(cents as nat),
{
    let mut cents = cents;
    let mut coins: u128 = cents / 25;
    cents = cents % 25;
    coins = coins + cents / 10;
    cents = cents % 10;
    coins = coins + cents / 5;
    cents = cents % 5;
    coins + cents
}

} // verus!
