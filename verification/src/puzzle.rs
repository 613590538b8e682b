use vstd::prelude::*;

verus! {

use vstd::string::StringExecFns;

/// Every way a puzzle can go wrong. A closed set of variants with an
/// explicit catch-all reserved for forward compatibility, so that matching
/// code keeps working when later versions add causes.
#[derive(Clone, Copy, Debug, PartialEq, Eq, Structural)]
pub enum PuzzleError {
    /// The piece with this number does not fit.
    WontFit(u16),
    /// The puzzle misses a piece.
    MissingPiece,
    /// The puzzle came without its box picture.
    PrettyImageless,
    /// Reserved for causes later versions may add.
    Other,
}

/// The digit character for one value below ten.
pub open spec fn digit_char(d: int) -> char {
    if d == 0 {
        '0'
    } else if d == 1 {
        '1'
    } else if d == 2 {
        '2'
    } else if d == 3 {
        '3'
    } else if d == 4 {
        '4'
    } else if d == 5 {
        '5'
    } else if d == 6 {
        '6'
    } else if d == 7 {
        '7'
    } else if d == 8 {
        '8'
    } else {
        '9'
    }
}

/// The decimal digits of `n`, most significant first.
pub open spec fn spec_decimal(n: int) -> Seq<char>
    decreases n,
{
    if n < 10 {
        seq![digit_char(n)]
    } else {
        spec_decimal(n / 10).push(digit_char(n % 10))
    }
}

fn digit_str(d: u16) -> (s: &'static str)
    requires
        d < 10,
    ensures
        s@ =~= seq![digit_char(d as int)],
{
    proof {
        reveal_strlit("0");
        reveal_strlit("1");
        reveal_strlit("2");
        reveal_strlit("3");
        reveal_strlit("4");
        reveal_strlit("5");
        reveal_strlit("6");
        reveal_strlit("7");
        reveal_strlit("8");
        reveal_strlit("9");
    }
    match d {
        0 => "0",
        1 => "1",
        2 => "2",
        3 => "3",
        4 => "4",
        5 => "5",
        6 => "6",
        7 => "7",
        8 => "8",
        _ => "9",
    }
}

/// Render a number in decimal.
fn decimal_string(n: u16) -> (s: String)
    ensures
        s@ == spec_decimal(n as int),
    decreases n,
{
    if n < 10 {
        let mut s = String::new();
        s.append(digit_str(n));
        proof {
            assert(s@ =~= spec_decimal(n as int));
        }
        s
    } else {
        let mut s = decimal_string(n / 10);
        s.append(digit_str(n % 10));
        proof {
            assert(s@ =~= spec_decimal(n as int));
        }
        s
    }
}

/// The wording of each puzzle error.
pub open spec fn spec_message(e: PuzzleError) -> Seq<char> {
    match e {
        PuzzleError::WontFit(n) => "Piece "@ + spec_decimal(n as int) + " doesn't fit!"@,
        PuzzleError::MissingPiece => "Missing a piece"@,
        PuzzleError::PrettyImageless => "The picture is missing"@,
        PuzzleError::Other => "Some other trouble with the puzzle"@,
    }
}

impl PuzzleError {
    /// What went wrong, in words.
    pub fn message(&self) -> (s: String)
        ensures
            s@ == spec_message(*self),
    {
        match self {
            PuzzleError::WontFit(n) => {
                let mut s = String::from_str("Piece ");
                let digits = decimal_string(*n);
                s.append(digits.as_str());
                s.append(" doesn't fit!");
                proof {
                    assert(s@ =~= spec_message(*self));
                }
                s
            },
            PuzzleError::MissingPiece => String::from_str("Missing a piece"),
            PuzzleError::PrettyImageless => String::from_str("The picture is missing"),
            PuzzleError::Other => String::from_str("Some other trouble with the puzzle"),
        }
    }
}

/// How many pieces a puzzle has unless told otherwise.
pub const PUZZLE_PIECES: u32 = 500;

/// A jigsaw puzzle.
#[derive(Clone, Debug)]
pub struct Puzzle {
    /// How many pieces the puzzle has.
    pub num_pieces: u32,
    /// The name on the box.
    pub name: String,
}

impl Puzzle {
    /// Make a new puzzle with the default shape.
    pub fn new() -> (p: Puzzle)
        ensures
            p.num_pieces == PUZZLE_PIECES,
            p.name@ == "Forest Lake"@,
    {
        Puzzle { num_pieces: PUZZLE_PIECES, name: String::from_str("Forest Lake") }
    }

    /// Read a puzzle out of the bytes of a puzzle file. No file has ever
    /// held a complete puzzle: the loader finds a piece missing in each,
    /// whatever the bytes say.
    pub fn from_file(_data: &Vec<u8>) -> (r: Result<Puzzle, PuzzleError>)
        ensures
            r is Err,
            r matches Err(e) ==> e is MissingPiece,
    {
        Err(PuzzleError::MissingPiece)
    }
}

impl Default for Puzzle {
    /// The default puzzle: the standard shape with the house name.
    fn default() -> (p: Self)
        ensures
            p.num_pieces == PUZZLE_PIECES,
            p.name@ == "Forest Lake"@,
    {
        Puzzle::new()
    }
}

impl PartialEq for Puzzle {
    /// Two puzzles are the same puzzle when shape and name agree.
    fn eq(&self, other: &Self) -> (r: bool) {
        self.num_pieces == other.num_pieces && self.name == other.name
    }
}

impl vstd::std_specs::cmp::PartialEqSpecImpl for Puzzle {
    open spec fn obeys_eq_spec() -> bool {
        true
    }

    open spec fn eq_spec(&self, other: &Puzzle) -> bool {
        self.num_pieces == other.num_pieces && self.name@ == other.name@
    }
}

impl From<Puzzle> for String {
    /// A puzzle converts into the name on its box.
    fn from(p: Puzzle) -> (s: Self) {
        p.name
    }
}

impl vstd::std_specs::convert::FromSpecImpl<Puzzle> for String {
    open spec fn obeys_from_spec() -> bool {
        true
    }

    open spec fn from_spec(p: Puzzle) -> Self {
        p.name
    }
}

} // verus!
