use vstd::prelude::*;

verus! {

use vstd::string::StrSliceExecFns;

use crate::puzzle::PuzzleError;

/// The kinds of failure an input/output operation can report, grouped into
/// one enum so that callers match on the kind rather than on many types.
/// `Other` is the explicit catch-all for kinds added later.
#[derive(Clone, Copy, Debug, PartialEq, Eq, Structural)]
pub enum ErrorKind {
    NotFound,
    PermissionDenied,
    ConnectionRefused,
    UnexpectedEof,
    OutOfMemory,
    Other,
}

/// The kinds of failure parsing an integer can report.
#[derive(Clone, Copy, Debug, PartialEq, Eq, Structural)]
pub enum IntErrorKind {
    /// The string held no characters at all.
    Empty,
    /// A character was no decimal digit.
    InvalidDigit,
    /// The value does not fit above.
    PosOverflow,
    /// The value does not fit below.
    NegOverflow,
    /// The value was zero where zero is not allowed.
    Zero,
}

/// The error of the fractal renderer: an outside concern that the puzzle
/// library converts into its own `PuzzleError` at the boundary.
#[derive(Clone, Copy, Debug, PartialEq, Eq, Structural)]
pub enum FractalError {
    /// The renderer produced no image.
    NoImage,
}

impl From<FractalError> for PuzzleError {
    /// A puzzle whose picture the renderer never delivered is a pretty
    /// imageless one.
    fn from(_e: FractalError) -> (r: Self) {
        PuzzleError::PrettyImageless
    }
}

impl vstd::std_specs::convert::FromSpecImpl<FractalError> for PuzzleError {
    open spec fn obeys_from_spec() -> bool {
        true
    }

    open spec fn from_spec(_e: FractalError) -> Self {
        PuzzleError::PrettyImageless
    }
}

/// The numeric value of a digit character; ten marks anything that is none.
pub open spec fn digit_value(c: char) -> int {
    if c == '0' {
        0
    } else if c == '1' {
        1
    } else if c == '2' {
        2
    } else if c == '3' {
        3
    } else if c == '4' {
        4
    } else if c == '5' {
        5
    } else if c == '6' {
        6
    } else if c == '7' {
        7
    } else if c == '8' {
        8
    } else if c == '9' {
        9
    } else {
        10
    }
}

/// Every character is a decimal digit.
pub open spec fn all_digits(s: Seq<char>) -> bool {
    forall|i: int| 0 <= i < s.len() ==> digit_value(#[trigger] s[i]) < 10
}

/// The number a digit string denotes, most significant digit first.
pub open spec fn decimal_value(s: Seq<char>) -> int
    decreases s.len(),
{
    if s.len() == 0 {
        0
    } else {
        decimal_value(s.drop_last()) * 10 + digit_value(s.last())
    }
}

proof fn lemma_decimal_value_nonneg(s: Seq<char>)
    requires
        all_digits(s),
    ensures
        0 <= decimal_value(s),
    decreases s.len(),
{
    if s.len() > 0 {
        assert(forall|i: int| 0 <= i < s.len() - 1 ==> s.drop_last()[i] == s[i]);
        lemma_decimal_value_nonneg(s.drop_last());
        assert(s.last() == s[s.len() - 1]);
    }
}

/// A digit string denotes at least what any of its prefixes denotes.
proof fn lemma_decimal_value_prefix(s: Seq<char>, i: int)
    requires
        all_digits(s),
        0 <= i <= s.len(),
    ensures
        decimal_value(s.take(i)) <= decimal_value(s),
    decreases s.len() - i,
{
    if i < s.len() {
        lemma_decimal_value_prefix(s, i + 1);
        assert(s.take(i + 1).drop_last() =~= s.take(i));
        assert(s.take(i + 1).last() == s[i]);
        assert(forall|k: int| 0 <= k < i ==> s.take(i)[k] == s[k]);
        assert(all_digits(s.take(i)));
        lemma_decimal_value_nonneg(s.take(i));
    } else {
        assert(s.take(i) =~= s);
    }
}

/// The numeric value of one character, with ten marking a non-digit.
fn char_digit(c: char) -> (d: u64)
    ensures
        d == digit_value(c),
{
    match c {
        '0' => 0,
        '1' => 1,
        '2' => 2,
        '3' => 3,
        '4' => 4,
        '5' => 5,
        '6' => 6,
        '7' => 7,
        '8' => 8,
        '9' => 9,
        _ => 10,
    }
}

/// Parse a decimal number. The contract says exactly when each outcome
/// happens: an empty string is `Empty`; any non-digit anywhere makes it
/// `InvalidDigit`; an all-digit string too large for the result type is
/// `PosOverflow`; everything else is the denoted value.
pub fn parse_u64(s: &str) -> (r: Result<u64, IntErrorKind>)
    ensures
        r matches Ok(v) ==> v == decimal_value(s@),
        r is Ok <==> (s@.len() > 0 && all_digits(s@) && decimal_value(s@) <= u64::MAX),
        r == Err::<u64, IntErrorKind>(IntErrorKind::Empty) <==> s@.len() == 0,
        r == Err::<u64, IntErrorKind>(IntErrorKind::InvalidDigit) <==> (s@.len() > 0
            && !all_digits(s@)),
        r == Err::<u64, IntErrorKind>(IntErrorKind::PosOverflow) <==> (s@.len() > 0 && all_digits(
            s@,
        ) && decimal_value(s@) > u64::MAX),
{
    let n: usize = s.unicode_len();
    if n == 0 {
        return Err(IntErrorKind::Empty);
    }
    // first pass: reject any non-digit
    let mut i: usize = 0;
    while i < n
        invariant
            n == s@.len(),
            i <= n,
            forall|k: int| 0 <= k < i ==> digit_value(#[trigger] s@[k]) < 10,
        decreases n - i,
    {
        let c = s.get_char(i);
        if char_digit(c) == 10 {
            return Err(IntErrorKind::InvalidDigit);
        }
        i += 1;
    }
    assert(all_digits(s@));
    // second pass: accumulate, watching for overflow
    let mut acc: u64 = 0;
    let mut j: usize = 0;
    while j < n
        invariant
            n == s@.len(),
            j <= n,
            all_digits(s@),
            acc == decimal_value(s@.take(j as int)),
        decreases n - j,
    {
        let c = s.get_char(j);
        let d = char_digit(c);
        proof {
            assert(s@.take(j + 1).drop_last() =~= s@.take(j as int));
            assert(s@.take(j + 1).last() == s@[j as int]);
        }
        let shifted = match acc.checked_mul(10) {
            Some(m) => m,
            None => {
                proof {
                    lemma_decimal_value_prefix(s@, j + 1);
                }
                return Err(IntErrorKind::PosOverflow);
            },
        };
        acc = match shifted.checked_add(d) {
            Some(a) => a,
            None => {
                proof {
                    lemma_decimal_value_prefix(s@, j + 1);
                }
                return Err(IntErrorKind::PosOverflow);
            },
        };
        j += 1;
    }
    proof {
        assert(s@.take(n as int) =~= s@);
    }
    Ok(acc)
}

/// The error of a transformer that is asked to do things out of order.
#[derive(Clone, Copy, Debug, PartialEq, Eq, Structural)]
pub enum TransformerError {
    /// The robot must stand up first.
    NotStanding,
    /// The vehicle must roll out before it can chase anything.
    NotRolling,
}

/// A robot in disguise. It stands up, folds into a vehicle, rolls out, and
/// gives chase, in that order; each stage reports an error when taken out
/// of turn.
#[derive(Clone, Copy, Debug, PartialEq, Eq, Structural)]
pub struct Transformer {
    /// The robot is upright and ready to fold.
    pub standing: bool,
}

/// What a transformer becomes on the road.
#[derive(Clone, Copy, Debug, PartialEq, Eq, Structural)]
pub struct Vehicle {
    /// The vehicle is moving.
    pub rolling: bool,
    /// The vehicle is chasing its target.
    pub chasing: bool,
}

impl Transformer {
    /// A freshly woken robot, not yet standing.
    pub fn new() -> (t: Transformer)
        ensures
            !t.standing,
    {
        Transformer { standing: false }
    }

    /// Stand up. Always succeeds.
    pub fn stand(self) -> (r: Result<Transformer, TransformerError>)
        ensures
            r matches Ok(t) ==> t.standing,
            r is Ok,
    {
        Ok(Transformer { standing: true })
    }

    /// Fold into a vehicle: only a standing robot can.
    pub fn transform(self) -> (r: Result<Vehicle, TransformerError>)
        ensures
            r is Ok <==> self.standing,
            r matches Ok(v) ==> !v.rolling && !v.chasing,
            !self.standing ==> r == Err::<Vehicle, TransformerError>(
                TransformerError::NotStanding,
            ),
    {
        if self.standing {
            Ok(Vehicle { rolling: false, chasing: false })
        } else {
            Err(TransformerError::NotStanding)
        }
    }
}

impl Vehicle {
    /// Start moving. Always succeeds and keeps any chase going.
    pub fn rollout(self) -> (r: Result<Vehicle, TransformerError>)
        ensures
            r matches Ok(v) ==> v.rolling && v.chasing == self.chasing,
            r is Ok,
    {
        Ok(Vehicle { rolling: true, chasing: self.chasing })
    }

    /// Give chase: only a rolling vehicle can.
    pub fn chase(self) -> (r: Result<Vehicle, TransformerError>)
        ensures
            r is Ok <==> self.rolling,
            r matches Ok(v) ==> v.rolling && v.chasing,
            !self.rolling ==> r == Err::<Vehicle, TransformerError>(TransformerError::NotRolling),
    {
        if self.rolling {
            Ok(Vehicle { rolling: true, chasing: true })
        } else {
            Err(TransformerError::NotRolling)
        }
    }
}

/// Wake a transformer and take it through the whole sequence, every stage
/// error-handled. The sequence is in order, so it always ends in a rolling,
/// chasing vehicle.
pub fn autobots_rollout() -> (r: Result<Vehicle, TransformerError>)
    ensures
        r is Ok,
        r matches Ok(v) ==> v.rolling && v.chasing,
{
    let optimus = Transformer::new();
    let vehicle = optimus.stand()?.transform()?.rollout()?.chase()?;
    Ok(vehicle)
}

} // verus!
