//! Telling card networks apart by the number's length and leading digits, and
//! checking a card number with Luhn's algorithm.
use crate::prompt::{ask_integer, asked, integer_parser, lemma_asked_integer_range, ReadError};
use vstd::prelude::*;
use vstd::string::{StringExecFns, StringSliceAdditionalSpecFns};

verus! {

/// A card number with the network it belongs to, or an invalid one.
#[derive(Debug, Clone, Copy, PartialEq, Eq, Structural)]
pub enum CardType {
    AmericanExpress(u64),
    Mastercard(u64),
    Visa(u64),
    Invalid,
}

/// How many decimal digits `n` has (`0` has one).
pub open spec fn num_digits(n: nat) -> nat
    decreases n,
{
    if n < 10 {
        1
    } else {
        1 + num_digits(n / 10)
    }
}

/// The number formed by the first two decimal digits of `n` (`n` itself below 100).
pub open spec fn leading_two(n: nat) -> nat
    decreases n,
{
    if n < 100 {
        n
    } else {
        leading_two(n / 10)
    }
}

/// The first decimal digit of `n`.
pub open spec fn leading_digit(n: nat) -> nat
    decreases n,
{
    if n < 10 {
        n
    } else {
        leading_digit(n / 10)
    }
}

/// The network of a card number: American Express has 15 digits starting with 34
/// or 37; Mastercard 16 digits starting with 51 to 55; Visa 13 or 16 digits
/// starting with 4; anything else is invalid.
pub open spec fn network_of(ccn: u64) -> CardType {
    let len = num_digits(ccn as nat);
    let two = leading_two(ccn as nat);
    if len == 15 && (two == 34 || two == 37) {
        CardType::AmericanExpress(ccn)
    } else if len == 16 && 51 <= two <= 55 {
        CardType::Mastercard(ccn)
    } else if (len == 13 || len == 16) && leading_digit(ccn as nat) == 4 {
        CardType::Visa(ccn)
    } else {
        CardType::Invalid
    }
}

/// What a digit adds to Luhn's sum: itself, or, on every second digit from the
/// right, twice itself with the digits of the product added up.
pub open spec fn luhn_term(d: nat, doubled: bool) -> nat {
    if !doubled {
        d
    } else if 2 * d >= 10 {
        (2 * d - 9) as nat
    } else {
        2 * d
    }
}

/// Luhn's sum over the digits of `n`, from the right; `doubled` tells whether the
/// last digit of `n` is one of those that are doubled.
pub open spec fn luhn_sum(n: nat, doubled: bool) -> nat
    decreases n,
{
    if n < 10 {
        luhn_term(n, doubled)
    } else {
        luhn_term(n % 10, doubled) + luhn_sum(n / 10, !doubled)
    }
}

/// The number passes Luhn's check: its sum ends in 0.
pub open spec fn passes_luhn(ccn: u64) -> bool {
    luhn_sum(ccn as nat, false) % 10 == 0
}

/// The text that names the type of card, with a newline.
pub open spec fn label_of(card: CardType) -> Seq<char> {
    match card {
        CardType::AmericanExpress(_) => "AMEX\n"@,
        CardType::Mastercard(_) => "MASTERCARD\n"@,
        CardType::Visa(_) => "VISA\n"@,
        CardType::Invalid => "INVALID\n"@,
    }
}

impl CardType {
    /// The network that the number's length and leading digits point to.
    pub fn from_ccn(ccn: u64) -> (r: Self)
        ensures
            r == network_of(ccn),
    {
        let mut len: u64 = 1;
        let mut n: u64 = ccn;
        proof {
            assert(pow10(0) == 1);
            assert(n as nat * pow10((len - 1) as nat) == n as nat * 1);
        }
        while n >= 10
            invariant
                num_digits(ccn as nat) == len - 1 + num_digits(n as nat),
                leading_digit(ccn as nat) == leading_digit(n as nat),
                1 <= len <= 20,
                n as nat * pow10((len - 1) as nat) <= ccn,
            decreases n,
        {
            proof {
                lemma_pow10_step((len - 1) as nat, n as nat);
                lemma_pow10_bound(len as nat, ccn as nat, n as nat);
            }
            n = n / 10;
            len = len + 1;
        }
        let mut two: u64 = ccn;
        while two >= 100
            invariant
                leading_two(ccn as nat) == leading_two(two as nat),
            decreases two,
        {
            two = two / 10;
        }
        if len == 15 && (two == 34 || two == 37) {
            CardType::AmericanExpress(ccn)
        } else if len == 16 && 51 <= two && two <= 55 {
            CardType::Mastercard(ccn)
        } else if (len == 13 || len == 16) && n == 4 {
            CardType::Visa(ccn)
        } else {
            CardType::Invalid
        }
    }

    /// Keeps the card if its number passes Luhn's check, and makes it invalid otherwise.
    pub fn checksum(&mut self)
        ensures
            match *old(self) {
                CardType::AmericanExpress(c) | CardType::Mastercard(c) | CardType::Visa(c) => *final(self)
                    == if passes_luhn(c) {
                    *old(self)
                } else {
                    CardType::Invalid
                },
                CardType::Invalid => *final(self) == CardType::Invalid,
            },
    {
        let mut ccn = match *self {
            CardType::AmericanExpress(ccn) => ccn,
            CardType::Mastercard(ccn) => ccn,
            CardType::Visa(ccn) => ccn,
            CardType::Invalid => return,
        };
        let ghost orig = ccn;
        let ghost total = luhn_sum(ccn as nat, false);
        let mut sum: u64 = 0;
        let mut on_digit_sum = true;
        loop
            invariant
                sum < 10,
                (sum + luhn_sum(ccn as nat, !on_digit_sum)) % 10 == total % 10,
                *self == *old(self),
                total == luhn_sum(orig as nat, false),
                match *old(self) {
                    CardType::AmericanExpress(c) | CardType::Mastercard(c) | CardType::Visa(c) => c == orig,
                    CardType::Invalid => false,
                },
            ensures
                sum == total % 10,
                *self == *old(self),
                total == luhn_sum(orig as nat, false),
                match *old(self) {
                    CardType::AmericanExpress(c) | CardType::Mastercard(c) | CardType::Visa(c) => c == orig,
                    CardType::Invalid => false,
                },
            decreases ccn,
        {
            let digit = ccn % 10;
            let ghost before = ccn;
            ccn = ccn / 10;
            let term = if on_digit_sum {
                digit
            } else {
                let mut product = digit * 2;
                if product >= 10 {
                    product = product - 9;
                }
                product
            };
            proof {
                assert(term == luhn_term(digit as nat, !on_digit_sum));
                if before >= 10 {
                    assert(luhn_sum(before as nat, !on_digit_sum) == term + luhn_sum(ccn as nat, on_digit_sum));
                } else {
                    assert(luhn_sum(before as nat, !on_digit_sum) == term);
                }
            }
            let ghost old_sum = sum;
            sum = (sum + term) % 10;
            if ccn == 0 {
                proof {
                    assert(before < 10);
                    assert((old_sum + term) % 10 == total % 10);
                }
                break;
            }
            proof {
                assert((old_sum + term + luhn_sum(ccn as nat, on_digit_sum)) % 10 == total % 10);
                assert((sum + luhn_sum(ccn as nat, on_digit_sum)) % 10 == total % 10) by (nonlinear_arith)
                    requires
                        sum == (old_sum + term) % 10,
                        (old_sum + term + luhn_sum(ccn as nat, on_digit_sum)) % 10 == total % 10,
                ;
            }
            on_digit_sum = !on_digit_sum;
        }
        if sum % 10 != 0 {
            *self = CardType::Invalid;
        }
    }

    /// The name of the card type with a newline: `AMEX`, `MASTERCARD`, `VISA` or `INVALID`.
    pub fn label(&self) -> (r: String)
        ensures
            r@ == label_of(*self),
    {
        match self {
            CardType::AmericanExpress(_) => String::from_str("AMEX\n"),
            CardType::Mastercard(_) => String::from_str("MASTERCARD\n"),
            CardType::Visa(_) => String::from_str("VISA\n"),
            CardType::Invalid => String::from_str("INVALID\n"),
        }
    }
}

/// Ten to the power `k`.
pub open spec fn pow10(k: nat) -> nat
    decreases k,
{
    if k == 0 {
        1
    } else {
        10 * pow10((k - 1) as nat)
    }
}

proof fn lemma_pow10_step(k: nat, n: nat)
    ensures
        (n / 10) * pow10(k + 1) <= n * pow10(k),
{
    assert(pow10(k + 1) == 10 * pow10(k));
    assert((n / 10) * (10 * pow10(k)) <= n * pow10(k)) by (nonlinear_arith)
        requires
            pow10(k) >= 0,
    {
        assert((n / 10) * 10 <= n);
    }
}

proof fn lemma_pow10_bound(len: nat, ccn: nat, n: nat)
    requires
        n >= 10,
        n * pow10((len - 1) as nat) <= ccn,
        ccn <= u64::MAX,
        len >= 1,
    ensures
        len < 20,
{
    if len >= 20 {
        lemma_pow10_mono(19, (len - 1) as nat);
        reveal_with_fuel(pow10, 20);
        assert(pow10(19) == 10000000000000000000);
        assert(n * pow10((len - 1) as nat) >= 10 * 10000000000000000000) by (nonlinear_arith)
            requires
                n >= 10,
                pow10((len - 1) as nat) >= 10000000000000000000,
        ;
    }
}

proof fn lemma_pow10_mono(a: nat, b: nat)
    requires
        a <= b,
    ensures
        pow10(a) <= pow10(b),
    decreases b - a,
{
    if a < b {
        lemma_pow10_mono(a, (b - 1) as nat);
        assert(pow10(b) == 10 * pow10((b - 1) as nat));
    }
}

/// Prompts with `Number: ` until a line holds a card number.
pub fn get_ccn(input: &mut &[u8], output: &mut Vec<u8>) -> (r: Result<u64, ReadError>)
    ensures
        asked(
            old(input)@,
            final(input)@,
            old(output)@,
            final(output)@,
            "Number: ".spec_bytes(),
            integer_parser(false, 0, u64::MAX as nat),
            match r {
                Ok(v) => Ok(v as int),
                Err(e) => Err(e),
            },
        ),
{
    let ghost s = input@;
    match ask_integer("Number: ", input, output, false, 0, u64::MAX as u128) {
        Ok((neg, m)) => {
            proof {
                lemma_asked_integer_range(s, false, 0, u64::MAX as nat, if neg { -(m as int) } else { m as int });
            }
            Ok(m as u64)
        },
        Err(e) => Err(e),
    }
}

} // verus!
