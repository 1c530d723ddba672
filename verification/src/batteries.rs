//! Digit-selection maximizer: from each battery line, pick a fixed
//! number of digits left to right so that the number they form is as
//! large as possible, then sum the picks over all lines.

use vstd::prelude::*;
use vstd::pervasive::unreached;
use crate::digits::{pow10, is_digit_char, digit_val, str_eq, lemma_pow10_increases,
    lemma_pow10_values};
use crate::error::{AocError, AocResult};

verus! {

/// How many digits each line contributes.
#[derive(Debug, PartialEq, Eq, Structural, Clone, Copy)]
pub enum Mode {
    Two,
    Twelve,
}

impl From<&str> for Mode {
    /// Resolves the textual mode selector; anything unrecognized falls
    /// back to two digits.
    fn from(s: &str) -> (m: Mode) {
        if str_eq(s, "two") {
            Mode::Two
        } else if str_eq(s, "twelve") {
            Mode::Twelve
        } else {
            Mode::Two
        }
    }
}

impl vstd::std_specs::convert::FromSpecImpl<&str> for Mode {
    open spec fn obeys_from_spec() -> bool {
        true
    }

    open spec fn from_spec(s: &str) -> Mode {
        if s@ == "two"@ {
            Mode::Two
        } else if s@ == "twelve"@ {
            Mode::Twelve
        } else {
            Mode::Two
        }
    }
}

/// Index of the first maximal character (by code point) of `s[lo..hi)`.
pub open spec fn first_max_index(s: Seq<char>, lo: int, hi: int) -> int
    decreases hi - lo,
{
    if hi - lo <= 1 {
        lo
    } else {
        let prev = first_max_index(s, lo, hi - 1);
        if (s[hi - 1] as u32) > (s[prev] as u32) {
            hi - 1
        } else {
            prev
        }
    }
}

pub proof fn lemma_first_max_bounds(s: Seq<char>, lo: int, hi: int)
    requires
        0 <= lo < hi <= s.len(),
    ensures
        lo <= first_max_index(s, lo, hi) < hi,
    decreases hi - lo,
{
    if hi - lo > 1 {
        lemma_first_max_bounds(s, lo, hi - 1);
    }
}

/// The first maximum of a window is found at the same place whether the
/// window is taken out of `s` or addressed inside it.
proof fn lemma_first_max_shift(s: Seq<char>, a: int, b: int, hi: int)
    requires
        0 <= a < hi <= b <= s.len(),
    ensures
        first_max_index(s.subrange(a, b), 0, hi - a) + a == first_max_index(s, a, hi),
    decreases hi - a,
{
    if hi - a > 1 {
        lemma_first_max_shift(s, a, b, hi - 1);
        lemma_first_max_bounds(s, a, hi - 1);
        let sub = s.subrange(a, b);
        let prev = first_max_index(s, a, hi - 1);
        assert(sub[hi - 1 - a] == s[hi - 1]);
        assert(sub[prev - a] == s[prev]);
        assert(first_max_index(sub, 0, hi - 1 - a) == prev - a);
    }
}

/// One line of battery joltage digits.
#[derive(Debug, PartialEq, Clone)]
pub struct BatteryLine {
    pub line: String,
}

/// First maximal character of `s` and its index; an empty `s` is a
/// parse error carrying the text itself.
fn max_char(s: &str) -> (r: AocResult<(usize, char)>)
    ensures
        s@.len() == 0 ==> (r matches Err(e) && e matches AocError::ParseError(m) && m@ == s@),
        s@.len() > 0 ==> (r matches Ok(p) && p.0 == first_max_index(s@, 0, s@.len() as int) && p.0
            < s@.len() && p.1 == s@[p.0 as int]),
{
    let len: usize = s.unicode_len();
    if len == 0 {
        return Err(AocError::ParseError(s.to_owned()));
    }
    let mut best_i: usize = 0;
    let mut best: char = s.get_char(0);
    let mut j: usize = 1;
    while j < len
        invariant
            1 <= j <= len,
            len == s@.len(),
            best_i == first_max_index(s@, 0, j as int),
            best_i < j,
            best == s@[best_i as int],
        decreases len - j,
    {
        let c = s.get_char(j);
        if (c as u32) > (best as u32) {
            best_i = j;
            best = c;
        }
        j = j + 1;
    }
    Ok((best_i, best))
}

/// Digit value of `c` in base 10.
fn char_to_digit10(c: char) -> (r: Option<u32>)
    ensures
        r == (if is_digit_char(c) {
            Some(digit_val(c) as u32)
        } else {
            None::<u32>
        }),
{
    let u: u32 = c as u32;
    if 48 <= u && u <= 57 {
        Some(u - 48)
    } else {
        None
    }
}

impl BatteryLine {
    /// First maximal character of the window `s[offset..max_offset)`,
    /// as a digit, together with its position in `s`. An empty window
    /// or a non-digit maximum is a parse error.
    fn largest_digit(s: &str, offset: usize, max_offset: usize) -> (r: AocResult<(usize, u32)>)
        requires
            offset <= max_offset <= s@.len(),
        ensures
            ({
                let i = first_max_index(s@, offset as int, max_offset as int);
                if offset < max_offset && is_digit_char(s@[i]) {
                    r matches Ok(p) && p.0 == i && p.1 == digit_val(s@[i])
                } else {
                    r matches Err(e) && e matches AocError::ParseError(_)
                }
            }),
            r matches Ok(p) ==> offset <= p.0 < max_offset,
    {
        proof {
            if offset < max_offset {
                lemma_first_max_bounds(s@, offset as int, max_offset as int);
                lemma_first_max_shift(s@, offset as int, max_offset as int, max_offset as int);
            }
        }
        let sub = s.substring_char(offset, max_offset);
        match max_char(sub) {
            Err(e) => Err(e),
            Ok((i_sub, c)) => {
                let idx = i_sub + offset;
                match char_to_digit10(c) {
                    None => Err(AocError::ParseError(s.to_owned())),
                    Some(d) => Ok((idx, d)),
                }
            },
        }
    }
}

/// The greedy pick: from each window take the first maximal character,
/// append its digit value, then slide the window one to the right. A
/// non-digit pick fails the whole line.
pub open spec fn spec_greedy(s: Seq<char>, offset: int, max_offset: int, k: nat, acc: int) -> Option<
    int,
>
    decreases k,
{
    if k == 0 {
        Some(acc)
    } else {
        let i = first_max_index(s, offset, max_offset);
        if 0 <= i < s.len() && is_digit_char(s[i]) {
            spec_greedy(s, i + 1, max_offset + 1, (k - 1) as nat, acc * 10 + digit_val(s[i]))
        } else {
            None
        }
    }
}

/// The number formed by greedily picking `digits` digits from `line`.
pub open spec fn spec_largest_number(line: Seq<char>, digits: nat) -> Option<int> {
    spec_greedy(line, 0, line.len() - digits + 1, digits, 0)
}

pub proof fn lemma_greedy_at_least_acc(s: Seq<char>, offset: int, max_offset: int, k: nat, acc: int)
    requires
        0 <= acc,
    ensures
        spec_greedy(s, offset, max_offset, k, acc) matches Some(v) ==> v >= acc,
    decreases k,
{
    if k > 0 {
        let i = first_max_index(s, offset, max_offset);
        if 0 <= i < s.len() && is_digit_char(s[i]) {
            lemma_greedy_at_least_acc(s, i + 1, max_offset + 1, (k - 1) as nat, acc * 10
                + digit_val(s[i]));
        }
    }
}

impl BatteryLine {
    /// The largest `digits`-digit number that can be picked from the
    /// line left to right, by the greedy window walk.
    pub fn largest_number(&self, digits: u32) -> (r: AocResult<u64>)
        requires
            1 <= digits <= 19,
            digits as int <= self.line@.len(),
        ensures
            match spec_largest_number(self.line@, digits as nat) {
                None => r matches Err(e) && e matches AocError::ParseError(_),
                Some(v) => r matches Ok(n) && n == v,
            },
    {
        let s: &str = self.line.as_str();
        let len: usize = s.unicode_len();
        let mut num: u64 = 0;
        let mut offset: usize = 0;
        let mut i: u32 = 0;
        proof {
            lemma_pow10_values();
        }
        while i < digits
            invariant
                i <= digits,
                1 <= digits <= 19,
                digits as int <= s@.len(),
                len == s@.len(),
                s@ == self.line@,
                offset < len - digits + 1 + i,
                num < pow10(i as nat),
                spec_greedy(
                    s@,
                    offset as int,
                    len - (digits as int) + 1 + (i as int),
                    (digits - i) as nat,
                    num as int,
                ) == spec_largest_number(s@, digits as nat),
            decreases digits - i,
        {
            let cur_max: usize = len - (digits as usize) + 1 + (i as usize);
            match Self::largest_digit(s, offset, cur_max) {
                Err(e) => {
                    proof {
                        lemma_first_max_bounds(s@, offset as int, cur_max as int);
                    }
                    return Err(e);
                },
                Ok((idx, dv)) => {
                    proof {
                        lemma_first_max_bounds(s@, offset as int, cur_max as int);
                        lemma_pow10_values();
                        lemma_pow10_increases((i + 1) as nat, 19);
                        assert(pow10((i + 1) as nat) == 10 * pow10(i as nat));
                    }
                    num = num * 10 + dv as u64;
                    offset = idx + 1;
                    i = i + 1;
                },
            }
        }
        Ok(num)
    }
}

/// Ok-line joltage of `line`, with 0 standing in for a failing line;
/// callers demand that no line fails.
pub open spec fn spec_line_jolt(line: Seq<char>, digits: nat) -> int {
    match spec_largest_number(line, digits) {
        Some(v) => v,
        None => 0,
    }
}

/// How many digits a mode asks of each line.
pub open spec fn spec_mode_digits(mode: Mode) -> nat {
    match mode {
        Mode::Two => 2,
        Mode::Twelve => 12,
    }
}

/// Sum of the greedy picks over all lines.
pub open spec fn spec_total_jolt(lines: Seq<BatteryLine>, digits: nat) -> int
    decreases lines.len(),
{
    if lines.len() == 0 {
        0
    } else {
        spec_line_jolt(lines[0].line@, digits) + spec_total_jolt(lines.drop_first(), digits)
    }
}

pub proof fn lemma_total_jolt_nonneg(lines: Seq<BatteryLine>, digits: nat)
    ensures
        spec_total_jolt(lines, digits) >= 0,
    decreases lines.len(),
{
    if lines.len() > 0 {
        lemma_greedy_at_least_acc(lines[0].line@, 0, lines[0].line@.len() - digits + 1, digits, 0);
        lemma_total_jolt_nonneg(lines.drop_first(), digits);
    }
}

/// Wraps a line of text as a battery line.
pub fn parse_battery_line(line: &str) -> (r: AocResult<BatteryLine>)
    ensures
        r matches Ok(b) && b.line@ == line@,
{
    Ok(BatteryLine { line: line.to_owned() })
}

/// Sums the largest pickable number over all battery lines, with the
/// digit count that the mode selects.
pub fn calc_total_jolt(lines: &Vec<BatteryLine>, mode: Mode) -> (total: u64)
    requires
        forall|k: int|
            0 <= k < lines@.len() ==> spec_mode_digits(mode) <= #[trigger] lines@[k].line@.len(),
        forall|k: int|
            0 <= k < lines@.len() ==> #[trigger] spec_largest_number(
                lines@[k].line@,
                spec_mode_digits(mode),
            ) is Some,
        spec_total_jolt(lines@, spec_mode_digits(mode)) <= u64::MAX,
    ensures
        total == spec_total_jolt(lines@, spec_mode_digits(mode)),
{
    let digits: u32 = match mode {
        Mode::Two => 2,
        Mode::Twelve => 12,
    };
    let mut total_jolt: u64 = 0;
    let mut i: usize = 0;
    proof {
        assert(lines@.skip(0) =~= lines@);
    }
    while i < lines.len()
        invariant
            i <= lines@.len(),
            digits == spec_mode_digits(mode),
            1 <= digits <= 19,
            forall|k: int|
                0 <= k < lines@.len() ==> spec_mode_digits(mode) <= #[trigger] lines@[k].line@.len(),
            forall|k: int|
                0 <= k < lines@.len() ==> #[trigger] spec_largest_number(
                    lines@[k].line@,
                    spec_mode_digits(mode),
                ) is Some,
            total_jolt + spec_total_jolt(lines@.skip(i as int), spec_mode_digits(mode))
                == spec_total_jolt(lines@, spec_mode_digits(mode)),
            spec_total_jolt(lines@, spec_mode_digits(mode)) <= u64::MAX,
        decreases lines@.len() - i,
    {
        proof {
            let rest = lines@.skip(i as int);
            assert(rest[0] == lines@[i as int]);
            assert(rest.drop_first() =~= lines@.skip(i as int + 1));
            lemma_total_jolt_nonneg(rest.drop_first(), spec_mode_digits(mode));
            lemma_greedy_at_least_acc(
                lines@[i as int].line@,
                0,
                lines@[i as int].line@.len() - spec_mode_digits(mode) + 1,
                spec_mode_digits(mode),
                0,
            );
        }
        let jolt = match lines[i].largest_number(digits) {
            Ok(j) => j,
            Err(_) => unreached(),
        };
        total_jolt = total_jolt + jolt;
        i = i + 1;
    }
    total_jolt
}

} // verus!
