use psets::cash::{calculate_coins, get_cents};
use psets::credit::{get_ccn, CardType};
use psets::hello::{converse, declaim, DECLAMATION};
use psets::mario::{get_height, pyramid};
use psets::prompt::ReadError;

#[test]
fn test_get_cents() {
    let mut input: &[u8] = b"-1\nWho do you think I am?\n17\n";
    let mut output: Vec<u8> = Vec::new();
    let height =
        get_cents(&mut input, &mut output).expect("stdin/stdout should work while getting cents");

    let expected = b"Change owed: Change owed: Change owed: ";
    assert_eq!(output, expected);
    assert_eq!(height, 17);
}

#[test]
fn test_calculate_coins() {
    assert_eq!(calculate_coins(0), 0);
    assert_eq!(calculate_coins(1), 1);
    assert_eq!(calculate_coins(4), 4);
    assert_eq!(calculate_coins(5), 1);
    assert_eq!(calculate_coins(24), 6);
    assert_eq!(calculate_coins(25), 1);
    assert_eq!(calculate_coins(26), 2);
    assert_eq!(calculate_coins(99), 9);
}

#[test]
fn coins_for_large_amounts() {
    assert_eq!(calculate_coins(41), 4);
    assert_eq!(calculate_coins(u128::MAX), u128::MAX / 25 + 1);
}

#[test]
fn cents_at_end_of_input() {
    let mut input: &[u8] = b"nope\n";
    let mut output: Vec<u8> = Vec::new();
    assert_eq!(get_cents(&mut input, &mut output), Err(ReadError::EndOfInput));
    assert_eq!(output, b"Change owed: Change owed: ");
}

#[test]
fn cents_on_invalid_utf8() {
    let mut input: &[u8] = b"\xff\n17\n";
    let mut output: Vec<u8> = Vec::new();
    assert_eq!(get_cents(&mut input, &mut output), Err(ReadError::InvalidUtf8));
    assert_eq!(input, b"17\n");
}

#[test]
fn test_get_ccn() {
    let mut input: &[u8] = b"-1\nWhat precisely do you make of me?\n4003600000000014\n";
    let mut output: Vec<u8> = Vec::new();
    let ccn = get_ccn(&mut input, &mut output).expect("stdin/stdout should work while getting ccn");

    let expected = b"Number: Number: Number: ";
    assert_eq!(output, expected);
    assert_eq!(ccn, 4003600000000014);
}

#[test]
fn test_from_ccn() {
    let ccn = 378282246310005;
    let card = CardType::from_ccn(ccn);
    assert_eq!(card, CardType::AmericanExpress(ccn));

    let ccn = 5555555555554444;
    let card = CardType::from_ccn(ccn);
    assert_eq!(card, CardType::Mastercard(ccn));

    let ccn = 4111111111111111;
    let card = CardType::from_ccn(ccn);
    assert_eq!(card, CardType::Visa(ccn));

    let ccn = 4062901840;
    let card = CardType::from_ccn(ccn);
    assert_eq!(card, CardType::Invalid);

    let ccn = 369421438430814;
    let card = CardType::from_ccn(ccn);
    assert_eq!(card, CardType::Invalid);
}

#[test]
fn from_ccn_edges() {
    assert_eq!(CardType::from_ccn(0), CardType::Invalid);
    assert_eq!(CardType::from_ccn(4222222222222), CardType::Visa(4222222222222));
    assert_eq!(CardType::from_ccn(340000000000000), CardType::AmericanExpress(340000000000000));
    assert_eq!(CardType::from_ccn(u64::MAX), CardType::Invalid);
}

#[test]
fn test_checksum() {
    let ccn = 371449635398431;
    let mut card = CardType::AmericanExpress(ccn);
    card.checksum();
    assert_eq!(card, CardType::AmericanExpress(ccn));

    let ccn = 5105105105105100;
    let mut card = CardType::Mastercard(ccn);
    card.checksum();
    assert_eq!(card, CardType::Mastercard(ccn));

    let ccn = 4012888888881881;
    let mut card = CardType::Visa(ccn);
    card.checksum();
    assert_eq!(card, CardType::Visa(ccn));

    let ccn = 1234567890;
    let mut card = CardType::AmericanExpress(ccn);
    card.checksum();
    assert_eq!(card, CardType::Invalid);

    let ccn = 4111111111111113;
    let mut card = CardType::Visa(ccn);
    card.checksum();
    assert_eq!(card, CardType::Invalid);

    let ccn = 4222222222223;
    let mut card = CardType::Mastercard(ccn);
    card.checksum();
    assert_eq!(card, CardType::Invalid);

    let mut card = CardType::Invalid;
    card.checksum();
    assert_eq!(card, CardType::Invalid);
}

#[test]
fn test_whole_program() {
    let test_pairs = [
        ("378282246310005\n", "AMEX\n"),
        ("5105105105105100\n", "MASTERCARD\n"),
        ("4222222222222\n", "VISA\n"),
        ("5673598276138003\n", "INVALID\n"),
        ("3400000000000620\n", "INVALID\n"),
        ("one last trick\n430000000000000\n", "INVALID\n"),
    ];

    for (input, expected) in test_pairs.iter() {
        let mut input: &[u8] = input.as_bytes();
        let mut output: Vec<u8> = Vec::new();
        let ccn =
            get_ccn(&mut input, &mut output).expect("stdin/stdout should work while getting ccn");
        let mut card = CardType::from_ccn(ccn);
        card.checksum();
        assert_eq!(card.label().as_bytes(), expected.as_bytes());
    }
}

#[test]
fn come_again() {
    let mut input: &[u8] = b"patrick";
    let mut output: Vec<u8> = Vec::new();
    let bytes_written = converse(&mut input, &mut output).expect("stdin/stdout should work");

    let expected = b"What's your name? hello, patrick\n";
    let expected_reply = b"hello, patrick\n";
    assert_eq!(output, expected);
    assert_eq!(bytes_written, expected_reply.len());
}

#[test]
fn converse_keeps_the_newline_of_the_name() {
    let mut input: &[u8] = b"ann\nbob\n";
    let mut output: Vec<u8> = Vec::new();
    let n = converse(&mut input, &mut output).expect("a valid line");
    assert_eq!(output, b"What's your name? hello, ann\n\n");
    assert_eq!(n, 12);
    assert_eq!(input, b"bob\n");
}

#[test]
fn what_did_you_say() {
    let mut output: Vec<u8> = Vec::new();
    let bytes_written = declaim(&mut output).expect("writing a line to stdout should work");

    assert_eq!(output, DECLAMATION.as_bytes());
    assert_eq!(bytes_written, DECLAMATION.len());
}

#[test]
fn test_get_height() {
    let mut input: &[u8] = b"-6\n9999999\nblah\n6\n";
    let mut output: Vec<u8> = Vec::new();
    let height = get_height(&mut input, &mut output)
        .expect("stdin/stdout should work while getting height");

    let expected = b"Height: Height: Height: Height: ";
    assert_eq!(output, expected);
    assert_eq!(height, 6);
}

#[test]
fn height_bounds() {
    let mut input: &[u8] = b"101\n  100  \n";
    let mut output: Vec<u8> = Vec::new();
    assert_eq!(get_height(&mut input, &mut output), Ok(100));
    let mut input: &[u8] = b"+0\n";
    assert_eq!(get_height(&mut input, &mut output), Ok(0));
}

#[test]
fn test_pyramid_1() {
    let height = 1;
    let mut output: Vec<u8> = Vec::new();
    pyramid(&mut output, height).expect("stdin/stdout should work while printing pyramid");

    let expected = b"#\n";
    assert_eq!(output, expected);
}

#[test]
fn test_pyramid_2() {
    let height = 6;
    let mut output: Vec<u8> = Vec::new();
    pyramid(&mut output, height).expect("stdout should work while printing pyramid");

    let expected = b"     #\n    ##\n   ###\n  ####\n #####\n######\n";
    assert_eq!(output, expected);
}

#[test]
fn empty_pyramid() {
    let mut output: Vec<u8> = Vec::new();
    pyramid(&mut output, 0).expect("always written");
    assert!(output.is_empty());
}
