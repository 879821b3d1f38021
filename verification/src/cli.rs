//! Command-line argument checks and the parsing of durations.
use crate::fermat::spec_is_prime;
use vstd::prelude::*;

verus! {

// ---------------------------------------------------------------------------
// Durations
// ---------------------------------------------------------------------------

/// A duration with millisecond resolution, as the log interval is given.
#[derive(Clone, Copy, Debug, PartialEq, Eq)]
pub struct LogInterval {
    pub secs: u64,
    /// Milliseconds past `secs`, below 1000.
    pub millis: u32,
}

impl LogInterval {
    /// The duration in milliseconds.
    pub open spec fn total_millis(self) -> int {
        self.secs * 1000 + self.millis
    }
}

/// Why a duration could not be parsed.
#[derive(Clone, Copy, Debug, PartialEq, Eq)]
pub enum DurationError {
    /// The string is empty.
    Empty,
    /// The unit suffix is not preceded by a number that fits in a `u64`.
    InvalidNumber(char),
    /// The character is neither a digit, whitespace, nor one of s, m, h, d.
    InvalidSuffix(char),
    /// The trailing milliseconds do not fit in a `u64`.
    InvalidTrailingMillis,
    /// A number times its unit, or the total, exceeds what a duration holds.
    Overflow,
}

/// The largest duration in milliseconds: 2⁶⁴ − 1 seconds and 999 ms.
pub open spec fn max_millis() -> int {
    u64::MAX as int * 1000 + 999
}

/// `c` is one of the Unicode `White_Space` characters.
pub open spec fn spec_is_whitespace(c: char) -> bool {
    let u = c as u32;
    ||| 0x09 <= u <= 0x0D
    ||| u == 0x20
    ||| u == 0x85
    ||| u == 0xA0
    ||| u == 0x1680
    ||| 0x2000 <= u <= 0x200A
    ||| u == 0x2028
    ||| u == 0x2029
    ||| u == 0x202F
    ||| u == 0x205F
    ||| u == 0x3000
}

/// `c` is one of the Unicode `White_Space` characters (as `char::is_whitespace`).
pub fn is_whitespace(c: char) -> (b: bool)
    ensures
        b == spec_is_whitespace(c),
{
    let u = c as u32;
    (0x09 <= u && u <= 0x0D) || u == 0x20 || u == 0x85 || u == 0xA0 || u == 0x1680 || (0x2000 <= u
        && u <= 0x200A) || u == 0x2028 || u == 0x2029 || u == 0x202F || u == 0x205F || u == 0x3000
}

/// `c` is an ASCII decimal digit.
pub open spec fn spec_is_digit(c: char) -> bool {
    '0' <= c <= '9'
}

/// The seconds in one unit `c` (s, m, h, d), if `c` is a unit.
pub open spec fn unit_secs(c: char) -> Option<int> {
    if c == 's' {
        Some(1)
    } else if c == 'm' {
        Some(60)
    } else if c == 'h' {
        Some(3600)
    } else if c == 'd' {
        Some(86400)
    } else {
        None
    }
}

/// The parse so far: the total in milliseconds, and the digits read since the
/// last unit (whether there are any, and their value).
pub struct ParseState {
    pub total: int,
    pub has_digits: bool,
    pub acc: int,
}

/// Reads one more character `c`.
pub open spec fn parse_step(st: ParseState, c: char) -> Result<ParseState, DurationError> {
    if spec_is_digit(c) {
        Ok(ParseState { has_digits: true, acc: st.acc * 10 + (c as u32 - '0' as u32), ..st })
    } else if spec_is_whitespace(c) {
        Ok(st)
    } else if !st.has_digits || st.acc > u64::MAX {
        Err(DurationError::InvalidNumber(c))
    } else {
        match unit_secs(c) {
            None => Err(DurationError::InvalidSuffix(c)),
            Some(u) => if st.acc * u > u64::MAX || st.total + st.acc * u * 1000 > max_millis() {
                Err(DurationError::Overflow)
            } else {
                Ok(ParseState { total: st.total + st.acc * u * 1000, has_digits: false, acc: 0 })
            },
        }
    }
}

/// The parse after the first `i` characters of `s`; the first error stands.
pub open spec fn parse_prefix(s: Seq<char>, i: nat) -> Result<ParseState, DurationError>
    decreases i,
{
    if i == 0 {
        Ok(ParseState { total: 0, has_digits: false, acc: 0 })
    } else {
        match parse_prefix(s, (i - 1) as nat) {
            Err(e) => Err(e),
            Ok(st) => parse_step(st, s[i - 1]),
        }
    }
}

/// The duration denoted by `s`, in milliseconds: a sequence of numbers, each
/// followed by a unit s, m, h or d (seconds, minutes, hours, days), and an
/// optional last number without a unit (milliseconds); whitespace is ignored.
/// For example, "1d2h3m4s567" is 1 day + 2 hours + 3 minutes + 4 seconds +
/// 567 ms.
pub open spec fn spec_parse_duration(s: Seq<char>) -> Result<int, DurationError> {
    if s.len() == 0 {
        Err(DurationError::Empty)
    } else {
        match parse_prefix(s, s.len()) {
            Err(e) => Err(e),
            Ok(st) => if !st.has_digits {
                Ok(st.total)
            } else if st.acc > u64::MAX {
                Err(DurationError::InvalidTrailingMillis)
            } else if st.total + st.acc > max_millis() {
                Err(DurationError::Overflow)
            } else {
                Ok(st.total + st.acc)
            },
        }
    }
}

/// Once the parse fails, it fails with the same error on any longer prefix.
proof fn lemma_parse_error_sticks(s: Seq<char>, i: nat, j: nat)
    requires
        parse_prefix(s, i) is Err,
        i <= j,
    ensures
        parse_prefix(s, j) == parse_prefix(s, i),
    decreases j - i,
{
    if i < j {
        lemma_parse_error_sticks(s, i, (j - 1) as nat);
    }
}

/// `s` parses with no number pending, as when its last character other than
/// whitespace is a unit.
pub open spec fn ends_with_unit(s: Seq<char>) -> bool {
    parse_prefix(s, s.len()) matches Ok(st) && !st.has_digits
}

/// With no digits pending, the accumulator is 0; the running total never
/// decreases.
proof fn lemma_parse_prefix_facts(s: Seq<char>, i: nat, j: nat)
    requires
        i <= j <= s.len(),
        parse_prefix(s, j) is Ok,
    ensures
        parse_prefix(s, i) is Ok,
        parse_prefix(s, i).unwrap().total <= parse_prefix(s, j).unwrap().total,
        !parse_prefix(s, j).unwrap().has_digits ==> parse_prefix(s, j).unwrap().acc == 0,
        parse_prefix(s, j).unwrap().total >= 0,
        parse_prefix(s, j).unwrap().acc >= 0,
    decreases j,
{
    if j > 0 {
        let j1 = (j - 1) as nat;
        if parse_prefix(s, j1) is Err {
            lemma_parse_error_sticks(s, j1, j);
        }
        if i < j {
            lemma_parse_prefix_facts(s, i, j1);
        }
        lemma_parse_prefix_facts(s, j1, j1);
    }
}

/// The parse of `a` + `b` agrees with that of `a` on the first `a.len()`
/// characters.
proof fn lemma_parse_prefix_left(a: Seq<char>, b: Seq<char>, k: nat)
    requires
        k <= a.len(),
    ensures
        parse_prefix(a + b, k) == parse_prefix(a, k),
    decreases k,
{
    if k > 0 {
        lemma_parse_prefix_left(a, b, (k - 1) as nat);
        assert((a + b)[k - 1] == a[k - 1]);
    }
}

/// After `a` (with no number pending and total `x`), the parse of `b`
/// continues as from the start, its total shifted by `x`.
proof fn lemma_parse_prefix_shift(a: Seq<char>, b: Seq<char>, x: int, i: nat)
    requires
        i <= b.len(),
        parse_prefix(a, a.len()) == Ok::<ParseState, DurationError>(ParseState { total: x, has_digits: false, acc: 0 }),
        parse_prefix(b, i) is Ok,
        parse_prefix(b, i).unwrap().total + x <= max_millis(),
    ensures
        parse_prefix(a + b, a.len() + i) == Ok::<ParseState, DurationError>(
            ParseState { total: parse_prefix(b, i).unwrap().total + x, ..parse_prefix(b, i).unwrap() },
        ),
    decreases i,
{
    if i == 0 {
        lemma_parse_prefix_left(a, b, a.len());
    } else {
        let i1 = (i - 1) as nat;
        lemma_parse_prefix_facts(b, i1, i);
        lemma_parse_prefix_shift(a, b, x, i1);
        assert((a + b)[(a.len() + i1) as int] == b[i1 as int]);
        assert(parse_prefix(a + b, a.len() + i) == match parse_prefix(a + b, (a.len() + i1) as nat) {
            Err(e) => Err(e),
            Ok(st) => parse_step(st, (a + b)[(a.len() + i1) as int]),
        });
    }
}

/// Concatenating a duration that ends with a unit and another duration adds
/// them, when the sum stays within range: "1d2h" followed by "3m4s567" is
/// "1d2h3m4s567".
pub proof fn lemma_parse_duration_concat(a: Seq<char>, b: Seq<char>, x: int, y: int)
    requires
        spec_parse_duration(a) == Ok::<int, DurationError>(x),
        spec_parse_duration(b) == Ok::<int, DurationError>(y),
        ends_with_unit(a),
        x + y <= max_millis(),
    ensures
        spec_parse_duration(a + b) == Ok::<int, DurationError>(x + y),
{
    lemma_parse_prefix_facts(a, a.len(), a.len());
    lemma_parse_prefix_facts(b, b.len(), b.len());
    let sb = parse_prefix(b, b.len()).unwrap();
    assert(sb.total <= y);
    lemma_parse_prefix_shift(a, b, x, b.len());
    assert((a + b).len() == a.len() + b.len());
}

/// Parses a duration: the suffixes s, m, h, d mean seconds, minutes, hours,
/// days; a number without a suffix is milliseconds. For example "1d2h3m4s567"
/// is 1 day + 2 hours + 3 minutes + 4 seconds + 567 ms.
pub fn parse_duration(value: &str) -> (r: Result<LogInterval, DurationError>)
    ensures
        match r {
            Ok(d) => d.millis < 1000 && spec_parse_duration(value@) == Ok::<int, DurationError>(
                d.total_millis(),
            ),
            Err(e) => spec_parse_duration(value@) == Err::<int, DurationError>(e),
        },
{
    if value.is_empty() {
        return Err(DurationError::Empty);
    }
    let mut total: u128 = 0;
    let mut has_digits = false;
    let mut acc: u64 = 0;
    // The digits read so far exceed u64::MAX.
    let mut big = false;
    for c in it: value.chars()
        invariant
            it.seq() == value@,
            parse_prefix(value@, it.index() as nat) matches Ok(st) && st.total == total && st.has_digits
                == has_digits && (big <==> st.acc > u64::MAX) && (!big ==> st.acc == acc)
                && st.acc >= 0,
            total <= max_millis(),
    {
        proof {
            assert(it.index() < value@.len());
        }
        let ghost st = parse_prefix(value@, it.index() as nat).unwrap();
        let ghost i = it.index();
        assert(c == value@[i]);
        assert(parse_prefix(value@, (i + 1) as nat) == parse_step(st, c));
        if '0' <= c && c <= '9' {
            let d = (c as u32 - '0' as u32) as u64;
            if !big {
                match acc.checked_mul(10) {
                    Some(a10) => match a10.checked_add(d) {
                        Some(a) => {
                            acc = a;
                        },
                        None => {
                            big = true;
                        },
                    },
                    None => {
                        big = true;
                    },
                }
            }
            has_digits = true;
        } else if is_whitespace(c) {
        } else {
            if !has_digits || big {
                proof { lemma_parse_error_sticks(value@, (i + 1) as nat, value@.len()); }
                return Err(DurationError::InvalidNumber(c));
            }
            let unit: u64 = if c == 's' {
                1
            } else if c == 'm' {
                60
            } else if c == 'h' {
                3600
            } else if c == 'd' {
                86400
            } else {
                proof { lemma_parse_error_sticks(value@, (i + 1) as nat, value@.len()); }
                return Err(DurationError::InvalidSuffix(c));
            };
            let secs = match acc.checked_mul(unit) {
                Some(x) => x,
                None => {
                    proof { lemma_parse_error_sticks(value@, (i + 1) as nat, value@.len()); }
                    return Err(DurationError::Overflow);
                },
            };
            assert(secs as int * 1000 <= u64::MAX as int * 1000);
            let t = total + secs as u128 * 1000;
            if t > 18446744073709551615999u128 {
                proof { lemma_parse_error_sticks(value@, (i + 1) as nat, value@.len()); }
                return Err(DurationError::Overflow);
            }
            total = t;
            has_digits = false;
            acc = 0;
        }
    }
    if has_digits {
        if big {
            return Err(DurationError::InvalidTrailingMillis);
        }
        let t = total + acc as u128;
        if t > 18446744073709551615999u128 {
            return Err(DurationError::Overflow);
        }
        total = t;
    }
    Ok(LogInterval { secs: (total / 1000) as u64, millis: (total % 1000) as u32 })
}


// ---------------------------------------------------------------------------
// Arguments
// ---------------------------------------------------------------------------

/// Primality of `n` by `primal::is_prime`, primal's deterministic
/// Miller–Rabin test, whose witness sets cover the whole `u64` range, so that
/// its answer is exact for every `n`.
#[verifier::external_body]
fn is_prime(n: u64) -> (b: bool)
    ensures
        b == spec_is_prime(n as nat),
{
    primal::is_prime(n)
}

/// The command-line arguments of a test run.
#[derive(Clone, Copy, Debug)]
pub struct Args {
    /// Run the modular rank test on SIDE×SIDE matrices.
    pub rank: Option<usize>,
    /// Run the modular linear-complexity test on sequences of this length.
    pub linear_complexity: Option<usize>,
    /// Number of matrices or sequences to test.
    pub reps: usize,
    /// Prime field modulus *p*: a prime below 2⁶³.
    pub modulus: u64,
    /// PRNG seed.
    pub seed: u64,
    /// How often to log progress.
    pub log_interval: LogInterval,
}

/// Why the arguments were refused.
#[derive(Clone, Copy, Debug, PartialEq, Eq)]
pub enum ArgError {
    /// SIDE/LENGTH is below 2.
    SizeTooSmall,
    /// SIDE² overflows an index.
    SideTooLarge,
    /// No repetitions were asked for.
    NoReps,
    /// The modulus is below 2.
    ModulusTooSmall,
    /// The modulus is not below 2⁶³.
    ModulusTooLarge,
    /// The modulus is not prime.
    ModulusNotPrime,
}

impl Args {
    /// One of -R/-L is given (the command line requires exactly one).
    pub open spec fn has_test(self) -> bool {
        self.rank is Some || self.linear_complexity is Some
    }

    /// The test size: the matrix side (rank test) or else the sequence length.
    pub open spec fn spec_size(self) -> usize {
        match self.rank {
            Some(s) => s,
            None => self.linear_complexity.unwrap(),
        }
    }

    /// The test size: the matrix side (rank test) or the sequence length
    /// (linear-complexity test).
    pub fn size(&self) -> (s: usize)
        requires
            self.has_test(),
        ensures
            s == self.spec_size(),
    {
        match self.rank {
            Some(s) => s,
            None => match self.linear_complexity {
                Some(l) => l,
                None => 0,
            },
        }
    }

    /// The first check the arguments fail, in the order: size, side, reps,
    /// modulus range, primality.
    pub open spec fn spec_validate(self) -> Result<(), ArgError> {
        let size = self.spec_size();
        if size < 2 {
            Err(ArgError::SizeTooSmall)
        } else if self.rank is Some && size * size > usize::MAX {
            Err(ArgError::SideTooLarge)
        } else if self.reps < 1 {
            Err(ArgError::NoReps)
        } else if self.modulus < 2 {
            Err(ArgError::ModulusTooSmall)
        } else if self.modulus >= 0x8000_0000_0000_0000u64 {
            Err(ArgError::ModulusTooLarge)
        } else if !spec_is_prime(self.modulus as nat) {
            Err(ArgError::ModulusNotPrime)
        } else {
            Ok(())
        }
    }

    /// Checks the arguments: a size of at least 2 (whose square fits in an
    /// index for the rank test), at least one repetition, and a prime modulus
    /// below 2⁶³.
    pub fn validate(&self) -> (r: Result<(), ArgError>)
        requires
            self.has_test(),
        ensures
            r == self.spec_validate(),
            r is Ok ==> 2 <= self.modulus < 0x8000_0000_0000_0000u64 && spec_is_prime(self.modulus as nat),
    {
        let size = self.size();
        if size < 2 {
            return Err(ArgError::SizeTooSmall);
        }
        if self.rank.is_some() && size.checked_mul(size).is_none() {
            return Err(ArgError::SideTooLarge);
        }
        if self.reps < 1 {
            return Err(ArgError::NoReps);
        }
        if self.modulus < 2 {
            return Err(ArgError::ModulusTooSmall);
        }
        if self.modulus >= 0x8000_0000_0000_0000 {
            return Err(ArgError::ModulusTooLarge);
        }
        if !is_prime(self.modulus) {
            return Err(ArgError::ModulusNotPrime);
        }
        Ok(())
    }
}

} // verus!
