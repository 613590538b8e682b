use puzzles::bunnies::snuggle;
use puzzles::errors::parse_u64;
use puzzles::errors::IntErrorKind;

#[test]
fn snuggling_bunnies_multiply() {
    assert_eq!(snuggle(2), 16);
}

#[should_panic]
#[test]
fn scared_bunny() {
    panic!("Hop away.");
}

#[test]
fn bunny_result() {
    let num_bunnies = parse_u64("four");
    assert_eq!(num_bunnies, Err(IntErrorKind::InvalidDigit));
}

#[test]
fn snuggle_documented_example() {
    let bunnies = snuggle(5);
    assert_eq!(bunnies, 40);
}

#[test]
fn snuggle_nothing() {
    assert_eq!(snuggle(0), 0);
}
