//! Glob patterns over relative paths. The matching itself is the work of the
//! `wax` crate; this module decides which patterns are handed to it.
//!
//! Every pattern is handed over but those on which the matcher is known not
//! to come back; these are answered with `PatternRefused`. To tell them, a pattern is gone through once, character by
//! character, as the matcher's own grammar reads it: a backslash takes the
//! next character out of play, a class `[..]` takes all of its characters
//! out of play, and what is left of `{ } < > : ,` gives the pattern its
//! groups and the bounds of its repetitions.

use crate::error::WaspError;
use crate::quantity::{digit_of, digit_value};
use crate::text::{chars_of, is_digit};
use vstd::prelude::*;
use wax::Program;

verus! {

/// The deepest that groups, `{..}` and `<..>`, may be nested.
pub const MAX_DEPTH: usize = 16;

/// The most that the length of a pattern with repetitions, times the bounds
/// of all its repetitions, may come to.
pub const MAX_WEIGHT: u64 = 0x1000_0000;

/// What `wax` makes of a pattern and a path: `None` where it refuses to build
/// the pattern, else whether the built pattern matches the path.
pub uninterp spec fn wax_match(pattern: Seq<char>, path: Seq<char>) -> Option<bool>;

/// What the character at hand belongs to.
#[derive(Clone, Copy, Debug, PartialEq, Eq, Structural)]
pub enum Reading {
    /// The pattern itself.
    Text,
    /// A class, up to its `]`.
    Class,
    /// The lower bound of a repetition, behind its `:`.
    Lower,
    /// The upper bound of a repetition, behind its `,`.
    Upper,
}

/// What is known of a pattern when a part at its front has been gone
/// through.
#[derive(Clone, Copy, Debug, PartialEq, Eq, Structural)]
pub struct Scan {
    /// The next character is taken out of play by a backslash.
    pub escaped: bool,
    pub reading: Reading,
    /// How many groups are open, counted up to `MAX_DEPTH`.
    pub depth: usize,
    /// More than `MAX_DEPTH` groups were open at once.
    pub too_deep: bool,
    /// A repetition was opened.
    pub repeats: bool,
    /// The lower bound as far as it is read, counted up to `MAX_WEIGHT + 1`.
    pub lower: u64,
    /// The upper bound as far as it is read, counted up to `MAX_WEIGHT + 1`.
    pub upper: u64,
    /// A digit of the upper bound was read.
    pub upper_written: bool,
    /// The product of all bounds read in full, zero taken as one, counted
    /// up to `MAX_WEIGHT + 1`.
    pub weight: u64,
    /// A repetition had two bounds written, one of them zero.
    pub zero_bound: bool,
}

/// `n`, or one where `n` is zero: a factor that never makes a product
/// smaller.
pub open spec fn as_factor(n: int) -> int {
    if n == 0 {
        1
    } else {
        n
    }
}

/// `n`, counted up to `MAX_WEIGHT + 1`.
pub open spec fn capped(n: int) -> u64 {
    if n > MAX_WEIGHT {
        (MAX_WEIGHT + 1) as u64
    } else {
        n as u64
    }
}

impl Scan {
    /// Before the first character.
    pub open spec fn start() -> Scan {
        Scan {
            escaped: false,
            reading: Reading::Text,
            depth: 0,
            too_deep: false,
            repeats: false,
            lower: 0,
            upper: 0,
            upper_written: false,
            weight: 1,
            zero_bound: false,
        }
    }

    /// The counters are within their limits.
    pub open spec fn within_limits(self) -> bool {
        &&& self.depth <= MAX_DEPTH
        &&& self.lower <= MAX_WEIGHT + 1
        &&& self.upper <= MAX_WEIGHT + 1
        &&& 1 <= self.weight <= MAX_WEIGHT + 1
    }

    /// The bounds that were being read are read in full: they go into the
    /// weight, and a zero beside another bound is noted.
    pub open spec fn settled(self) -> Scan {
        if self.reading == Reading::Lower || self.reading == Reading::Upper {
            Scan {
                reading: Reading::Text,
                lower: 0,
                upper: 0,
                upper_written: false,
                weight: capped(
                    capped(self.weight * as_factor(self.lower as int)) * as_factor(
                        self.upper as int,
                    ),
                ),
                zero_bound: self.zero_bound || (self.upper_written && (self.lower == 0
                    || self.upper == 0)),
                ..self
            }
        } else {
            self
        }
    }

    /// A group is opened by `c`.
    pub open spec fn opened(self, c: char) -> Scan {
        Scan {
            depth: if self.depth < MAX_DEPTH {
                (self.depth + 1) as usize
            } else {
                self.depth
            },
            too_deep: self.too_deep || self.depth >= MAX_DEPTH,
            repeats: self.repeats || c == '<',
            ..self
        }
    }

    /// A group is closed.
    pub open spec fn closed(self) -> Scan {
        Scan {
            depth: if self.depth > 0 {
                (self.depth - 1) as usize
            } else {
                0
            },
            ..self
        }
    }

    /// What is known when one more character, `c`, has been gone through.
    pub open spec fn step(self, c: char) -> Scan {
        if self.escaped {
            Scan { escaped: false, ..self }
        } else if c == '\\' {
            Scan { escaped: true, ..self.settled() }
        } else if self.reading == Reading::Class {
            if c == ']' {
                Scan { reading: Reading::Text, ..self }
            } else {
                self
            }
        } else if self.reading == Reading::Lower && is_digit(c) {
            Scan { lower: capped(self.lower * 10 + digit_value(c)), ..self }
        } else if self.reading == Reading::Lower && c == ',' {
            Scan { reading: Reading::Upper, ..self }
        } else if self.reading == Reading::Upper && is_digit(c) {
            Scan { upper: capped(self.upper * 10 + digit_value(c)), upper_written: true, ..self }
        } else if c == '[' {
            Scan { reading: Reading::Class, ..self.settled() }
        } else if c == '{' || c == '<' {
            self.settled().opened(c)
        } else if c == '}' || c == '>' {
            self.settled().closed()
        } else if c == ':' {
            Scan { reading: Reading::Lower, ..self.settled() }
        } else {
            self.settled()
        }
    }
}

/// What is known of `pattern` when all of it has been gone through.
pub open spec fn scan(pattern: Seq<char>) -> Scan
    decreases pattern.len(),
{
    if pattern.len() == 0 {
        Scan::start()
    } else {
        scan(pattern.drop_last()).step(pattern.last())
    }
}

/// `pattern` can be handed to the matcher:
/// its groups are nested no deeper than `MAX_DEPTH`; none of its repetitions
/// has two bounds written of which one is zero; and if it has a repetition,
/// its length and one, times the bounds of all its repetitions, is no more
/// than `MAX_WEIGHT`.
pub open spec fn admissible(pattern: Seq<char>) -> bool {
    let end = scan(pattern).settled();
    &&& !end.too_deep
    &&& !end.zero_bound
    &&& end.repeats ==> end.weight * (pattern.len() + 1) <= MAX_WEIGHT
}

/// `pattern` matches `path`: the matcher builds the pattern and accepts the
/// path.
pub open spec fn glob_accepts(pattern: Seq<char>, path: Seq<char>) -> bool {
    wax_match(pattern, path) == Some(true)
}

/// A pattern that holds none of `\\ [ { < :` has no class, no group and no
/// bounds, and is admissible.
pub proof fn lemma_plain_pattern_is_admissible(pattern: Seq<char>)
    requires
        forall|i: int|
            0 <= i < pattern.len() ==> {
                let c = #[trigger] pattern[i];
                c != '\\' && c != '[' && c != '{' && c != '<' && c != ':'
            },
    ensures
        scan(pattern) == Scan::start(),
        admissible(pattern),
    decreases pattern.len(),
{
    if pattern.len() > 0 {
        let front = pattern.drop_last();
        assert forall|i: int| 0 <= i < front.len() implies {
            let c = #[trigger] front[i];
            c != '\\' && c != '[' && c != '{' && c != '<' && c != ':'
        } by {
            assert(front[i] == pattern[i]);
        }
        lemma_plain_pattern_is_admissible(front);
        let c = pattern[pattern.len() - 1];
        assert(c == pattern.last());
    }
}

/// Calls `wax::Glob::new` on `pattern` and, where that builds,
/// `wax::Program::is_match` of the result on `path`.
///
/// Believed, not proved: the outcome of the two calls is a function of the
/// two strings alone. `wax` turns a pattern into a regular expression and
/// asks the `regex` crate whether it matches the whole path; neither step
/// reads anything but its arguments. The separator and the case rule are
/// those that `wax` was built with: on Unix `/` separates and case matters.
///
/// `wax` does not come back from every pattern. Three kinds are known to
/// end the program in `Glob::new`, and `admissible` keeps all three away:
/// a pattern nested so deep that `regex` refuses the expression made of it;
/// a pattern whose repetition bounds, multiplied with each other and with
/// the size of what they repeat, overflow; and a repetition from zero up to
/// a written bound, whose range `wax` cannot add to one that is open above.
/// That it comes back from every other pattern is believed on a reading of
/// its source, and on trying it.
#[verifier::external_body]
fn wax_is_match(pattern: &str, path: &str) -> (r: Option<bool>)
    requires
        admissible(pattern@),
    ensures
        r == wax_match(pattern@, path@),
{
    match wax::Glob::new(pattern) {
        Ok(glob) => Some(glob.is_match(path)),
        Err(_) => None,
    }
}

/// `n`, counted up to `MAX_WEIGHT + 1`.
fn cap(n: u64) -> (r: u64)
    ensures
        r == capped(n as int),
{
    if n > MAX_WEIGHT {
        MAX_WEIGHT + 1
    } else {
        n
    }
}

impl Scan {
    /// Brings the bounds that were being read to account.
    fn settle(self) -> (r: Scan)
        requires
            self.within_limits(),
        ensures
            r == self.settled(),
            r.within_limits(),
    {
        match self.reading {
            Reading::Lower | Reading::Upper => {
                let first: u64 = if self.lower == 0 {
                    1
                } else {
                    self.lower
                };
                let second: u64 = if self.upper == 0 {
                    1
                } else {
                    self.upper
                };
                assert(self.weight * first <= 0x1000_0001 * 0x1000_0001) by (nonlinear_arith)
                    requires
                        self.weight <= 0x1000_0001,
                        first <= 0x1000_0001,
                ;
                let once = cap(self.weight * first);
                assert(once * second <= 0x1000_0001 * 0x1000_0001) by (nonlinear_arith)
                    requires
                        once <= 0x1000_0001,
                        second <= 0x1000_0001,
                ;
                assert(1 <= self.weight * first) by (nonlinear_arith)
                    requires
                        1 <= self.weight,
                        1 <= first,
                ;
                assert(1 <= once * second) by (nonlinear_arith)
                    requires
                        1 <= once,
                        1 <= second,
                ;
                Scan {
                    escaped: self.escaped,
                    reading: Reading::Text,
                    depth: self.depth,
                    too_deep: self.too_deep,
                    repeats: self.repeats,
                    lower: 0,
                    upper: 0,
                    upper_written: false,
                    weight: cap(once * second),
                    zero_bound: self.zero_bound || (self.upper_written && (self.lower == 0
                        || self.upper == 0)),
                }
            },
            _ => self,
        }
    }

    /// Goes through one more character.
    fn advance(self, c: char) -> (r: Scan)
        requires
            self.within_limits(),
        ensures
            r == self.step(c),
            r.within_limits(),
    {
        let digit: bool = '0' <= c && c <= '9';
        if self.escaped {
            Scan { escaped: false, ..self }
        } else if c == '\\' {
            Scan { escaped: true, ..self.settle() }
        } else if self.reading == Reading::Class {
            if c == ']' {
                Scan { reading: Reading::Text, ..self }
            } else {
                self
            }
        } else if self.reading == Reading::Lower && digit {
            Scan { lower: cap(self.lower * 10 + digit_of(c)), ..self }
        } else if self.reading == Reading::Lower && c == ',' {
            Scan { reading: Reading::Upper, ..self }
        } else if self.reading == Reading::Upper && digit {
            Scan { upper: cap(self.upper * 10 + digit_of(c)), upper_written: true, ..self }
        } else {
            let s = self.settle();
            if c == '[' {
                Scan { reading: Reading::Class, ..s }
            } else if c == '{' || c == '<' {
                Scan {
                    depth: if s.depth < MAX_DEPTH {
                        s.depth + 1
                    } else {
                        s.depth
                    },
                    too_deep: s.too_deep || s.depth >= MAX_DEPTH,
                    repeats: s.repeats || c == '<',
                    ..s
                }
            } else if c == '}' || c == '>' {
                Scan {
                    depth: if s.depth > 0 {
                        s.depth - 1
                    } else {
                        0
                    },
                    ..s
                }
            } else if c == ':' {
                Scan { reading: Reading::Lower, ..s }
            } else {
                s
            }
        }
    }
}

/// Whether `pattern` is admissible.
pub fn pattern_is_admissible(pattern: &str) -> (r: bool)
    ensures
        r == admissible(pattern@),
{
    let chars = chars_of(pattern);
    let mut state = Scan {
        escaped: false,
        reading: Reading::Text,
        depth: 0,
        too_deep: false,
        repeats: false,
        lower: 0,
        upper: 0,
        upper_written: false,
        weight: 1,
        zero_bound: false,
    };
    let mut i: usize = 0;
    while i < chars.len()
        invariant
            i <= chars.len(),
            chars@ == pattern@,
            state == scan(chars@.take(i as int)),
            state.within_limits(),
        decreases chars.len() - i,
    {
        assert(chars@.take(i + 1).drop_last() =~= chars@.take(i as int));
        assert(chars@.take(i + 1).last() == chars@[i as int]);
        state = state.advance(chars[i]);
        i += 1;
    }
    assert(chars@.take(i as int) =~= chars@);
    let end = state.settle();
    if end.too_deep || end.zero_bound {
        return false;
    }
    if !end.repeats {
        return true;
    }
    let n: usize = chars.len();
    if n >= MAX_WEIGHT as usize {
        assert(end.weight * (n + 1) > MAX_WEIGHT) by (nonlinear_arith)
            requires
                1 <= end.weight,
                n >= MAX_WEIGHT,
        ;
        return false;
    }
    assert(end.weight * (n + 1) <= 0x1000_0001 * 0x1000_0000) by (nonlinear_arith)
        requires
            end.weight <= 0x1000_0001,
            n + 1 <= 0x1000_0000,
    ;
    end.weight * (n as u64 + 1) <= MAX_WEIGHT
}

/// Whether the admissible pattern `pattern` matches `path`.
pub(crate) fn admitted_glob_match(pattern: &str, path: &str) -> (r: bool)
    requires
        admissible(pattern@),
    ensures
        r == glob_accepts(pattern@, path@),
{
    accepted(wax_is_match(pattern, path))
}

/// Reads the answer of the matcher: only a pattern that was built and that
/// matched counts as a match.
pub fn accepted(answer: Option<bool>) -> (r: bool)
    ensures
        r == (answer == Some(true)),
{
    match answer {
        Some(hit) => hit,
        None => false,
    }
}

/// Whether `pattern` matches `path`. A pattern that the matcher refuses
/// matches nothing; one that is not admissible is answered with
/// `PatternRefused`.
pub fn glob_match(pattern: &str, path: &str) -> (r: Result<bool, WaspError>)
    ensures
        admissible(pattern@) ==> r == Ok::<bool, WaspError>(glob_accepts(pattern@, path@)),
        !admissible(pattern@) ==> r == Err::<bool, WaspError>(WaspError::PatternRefused),
{
    if pattern_is_admissible(pattern) {
        Ok(admitted_glob_match(pattern, path))
    } else {
        Err(WaspError::PatternRefused)
    }
}

} // verus!
