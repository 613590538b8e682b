use puzzles::errors::autobots_rollout;
use puzzles::errors::parse_u64;
use puzzles::errors::FractalError;
use puzzles::errors::IntErrorKind;
use puzzles::errors::Transformer;
use puzzles::errors::TransformerError;
use puzzles::puzzle::Puzzle;
use puzzles::puzzle::PuzzleError;

#[test]
fn new_puzzle_is_the_default_puzzle() {
    let p = Puzzle::new();
    assert_eq!(p.num_pieces, 500);
    assert_eq!(p.name, "Forest Lake");
    assert!(p == Puzzle::default());
}

#[test]
fn puzzle_equality_checks_both_fields() {
    let mut p = Puzzle::new();
    p.num_pieces = 3000;
    assert!(p != Puzzle::default());
    let mut q = Puzzle::default();
    q.name = "Draconic Equestrian".to_string();
    assert!(q != Puzzle::default());
}

#[test]
fn every_puzzle_file_misses_a_piece() {
    let r = Puzzle::from_file(&vec![7, 7, 7]);
    assert!(matches!(r, Err(PuzzleError::MissingPiece)));
}

#[test]
fn puzzle_converts_into_its_name() {
    let s = String::from(Puzzle::new());
    assert_eq!(s, "Forest Lake");
}

#[test]
fn error_messages() {
    assert_eq!(PuzzleError::WontFit(5).message(), "Piece 5 doesn't fit!");
    assert_eq!(PuzzleError::WontFit(500).message(), "Piece 500 doesn't fit!");
    assert_eq!(PuzzleError::WontFit(65535).message(), "Piece 65535 doesn't fit!");
    assert_eq!(PuzzleError::MissingPiece.message(), "Missing a piece");
}

#[test]
fn fractal_error_becomes_a_puzzle_error() {
    assert_eq!(PuzzleError::from(FractalError::NoImage), PuzzleError::PrettyImageless);
}

#[test]
fn parse_u64_values() {
    assert_eq!(parse_u64("0"), Ok(0));
    assert_eq!(parse_u64("4"), Ok(4));
    assert_eq!(parse_u64("007"), Ok(7));
    assert_eq!(parse_u64("18446744073709551615"), Ok(u64::MAX));
}

#[test]
fn parse_u64_errors() {
    assert_eq!(parse_u64(""), Err(IntErrorKind::Empty));
    assert_eq!(parse_u64("1a"), Err(IntErrorKind::InvalidDigit));
    assert_eq!(parse_u64("-1"), Err(IntErrorKind::InvalidDigit));
    assert_eq!(parse_u64("18446744073709551616"), Err(IntErrorKind::PosOverflow));
    assert_eq!(parse_u64("99999999999999999999999"), Err(IntErrorKind::PosOverflow));
}

#[test]
fn autobots_roll_out_and_chase() {
    let v = autobots_rollout().unwrap();
    assert!(v.rolling);
    assert!(v.chasing);
}

#[test]
fn transformer_stages_fail_out_of_order() {
    let sleeping = Transformer::new();
    assert_eq!(sleeping.transform(), Err(TransformerError::NotStanding));
    let standing = Transformer::new().stand().unwrap();
    let parked = standing.transform().unwrap();
    assert_eq!(parked.chase(), Err(TransformerError::NotRolling));
}
