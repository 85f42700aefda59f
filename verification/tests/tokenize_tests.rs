use pathsampler::error::PathError;
use pathsampler::tokenize::{tokenize, Token};

const SCALE: i128 = 1_000_000_000_000;

#[test]
fn tokenize_splits_commands_and_numbers() {
    let toks = tokenize(b"M 20.5 50.0").unwrap();
    assert_eq!(
        toks,
        vec![
            Token::Letter(b'M'),
            Token::Number(20 * SCALE + SCALE / 2),
            Token::Number(50 * SCALE),
        ]
    );
}

#[test]
fn tokenize_splits_attached_negative_number() {
    let toks = tokenize(b"L-5.5").unwrap();
    assert_eq!(
        toks,
        vec![Token::Letter(b'L'), Token::Number(-(5 * SCALE + SCALE / 2))]
    );
}

#[test]
fn tokenize_keeps_attached_positive_number_as_one_word() {
    // only a '-' right after a letter splits; "L5" stays one unrecognized word
    let toks = tokenize(b"L5").unwrap();
    assert_eq!(toks, vec![Token::Other]);
}

#[test]
fn tokenize_accepts_bare_fraction_and_trailing_dot() {
    let toks = tokenize(b".5 5. +5").unwrap();
    assert_eq!(
        toks,
        vec![
            Token::Number(SCALE / 2),
            Token::Number(5 * SCALE),
            Token::Number(5 * SCALE),
        ]
    );
}

#[test]
fn tokenize_rounds_beyond_twelve_decimals() {
    let toks = tokenize(b"0.0000000000005 0.0000000000004").unwrap();
    assert_eq!(toks, vec![Token::Number(1), Token::Number(0)]);
}

#[test]
fn tokenize_classifies_malformed_words_as_other() {
    let toks = tokenize(b"1x -. zz9").unwrap();
    assert_eq!(toks, vec![Token::Other, Token::Other, Token::Other]);
}

#[test]
fn tokenize_rejects_out_of_range_literal() {
    assert_eq!(tokenize(b"M 10001 0"), Err(PathError::TokenizeError));
    assert_eq!(tokenize(b"10000.5"), Err(PathError::TokenizeError));
}

#[test]
fn tokenize_accepts_boundary_literal() {
    let toks = tokenize(b"10000 -10000").unwrap();
    assert_eq!(
        toks,
        vec![Token::Number(10_000 * SCALE), Token::Number(-10_000 * SCALE)]
    );
}

#[test]
fn tokenize_empty_input() {
    assert_eq!(tokenize(b"").unwrap(), vec![]);
    assert_eq!(tokenize(b"   \t\n ").unwrap(), vec![]);
}
