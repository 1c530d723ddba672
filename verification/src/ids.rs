//! Repeated-block ID validity classifier and range aggregator.
//!
//! An ID is invalid when its decimal digit string can be split, for some
//! admissible block count, into equal-length blocks that are all identical.
//! The aggregator walks inclusive ranges of IDs and accumulates the count
//! and the sum of the invalid ones.

use vstd::prelude::*;
use vstd::arithmetic::div_mod::{
    lemma_div_denominator, lemma_div_is_ordered, lemma_div_is_ordered_by_denominator,
    lemma_div_by_self, lemma_small_mod,
};
use crate::digits::{
    pow10, n_digits, count_digits, pow10_exec, lemma_pow10_positive, lemma_pow10_adds,
    digit_run_end, digits_value, scan_u64, str_eq,
};

verus! {

/// An inclusive range of IDs. `start <= end` is expected but not enforced;
/// a reversed range simply holds no IDs.
#[derive(Debug, PartialEq, Eq, Structural, Clone, Copy)]
pub struct IdRange {
    pub start: u64,
    pub end: u64,
}

/// Classification strictness: `Two` checks only the two-halves split,
/// `Multiple` checks every block count up to the digit count.
#[derive(Debug, PartialEq, Eq, Structural, Clone, Copy)]
pub enum Mode {
    Two,
    Multiple,
}

impl From<&str> for Mode {
    /// Resolves the textual mode selector; anything unrecognized falls
    /// back to `Two`.
    fn from(s: &str) -> (m: Mode) {
        if str_eq(s, "two") {
            Mode::Two
        } else if str_eq(s, "multiple") {
            Mode::Multiple
        } else {
            Mode::Two
        }
    }
}

impl vstd::std_specs::convert::FromSpecImpl<&str> for Mode {
    open spec fn obeys_from_spec() -> bool {
        true
    }

    open spec fn from_spec(s: &str) -> Mode {
        if s@ == "two"@ {
            Mode::Two
        } else if s@ == "multiple"@ {
            Mode::Multiple
        } else {
            Mode::Two
        }
    }
}

/// Value of the block of `period` digits that starts `i` blocks away from
/// the least significant end of `id`'s decimal representation.
pub open spec fn block_val(id: nat, period: nat, i: nat) -> int {
    (id as int / pow10(period * i)) % pow10(period)
}

/// The digit string of `id` (`digits` long) splits evenly into `freq`
/// blocks that are all equal to the rightmost one.
pub open spec fn repeats_with(id: nat, digits: nat, freq: nat) -> bool {
    &&& 2 <= freq
    &&& digits % freq == 0
    &&& forall|i: nat|
        1 <= i < freq ==> #[trigger] block_val(id, (digits / freq) as nat, i) == block_val(
            id,
            (digits / freq) as nat,
            0,
        )
}

/// Largest block count that a mode examines.
pub open spec fn spec_max_freq(digits: nat, mode: Mode) -> nat {
    match mode {
        Mode::Two => 2,
        Mode::Multiple => digits,
    }
}

/// An ID is valid unless some admissible block count splits it into
/// identical blocks.
pub open spec fn spec_id_is_valid(id: u64, mode: Mode) -> bool {
    forall|freq: nat|
        2 <= freq <= spec_max_freq(n_digits(id as nat), mode) ==> !repeats_with(
            id as nat,
            n_digits(id as nat),
            freq,
        )
}

/// Decides validity of one ID by searching the admissible block counts
/// for a split into identical blocks.
pub fn id_is_valid(id: u64, mode: Mode) -> (valid: bool)
    ensures
        valid == spec_id_is_valid(id, mode),
{
    let digits: u32 = count_digits(id);
    let max_freq: u32 = match mode {
        Mode::Two => 2,
        Mode::Multiple => digits,
    };
    let mut freq: u32 = 2;
    while freq <= max_freq
        invariant
            2 <= freq <= max_freq + 1,
            digits == n_digits(id as nat),
            1 <= digits <= 20,
            max_freq == spec_max_freq(digits as nat, mode),
            max_freq <= 20,
            forall|f: nat| 2 <= f < freq ==> !repeats_with(id as nat, digits as nat, f),
        decreases max_freq + 1 - freq,
    {
        if digits % freq == 0 {
            proof {
                if digits < freq {
                    lemma_small_mod(digits as nat, freq as nat);
                }
                lemma_div_is_ordered(freq as int, digits as int, freq as int);
                lemma_div_by_self(freq as int);
                lemma_div_is_ordered_by_denominator(digits as int, 2, freq as int);
            }
            let period: u32 = digits / freq;
            let pivot: u64 = pow10_exec(period);
            proof {
                lemma_pow10_positive(period as nat);
            }
            let right: u64 = id % pivot;
            let mut id_pivoted: u64 = id;
            let mut valid_at_freq: bool = false;
            let mut i: u32 = 1;
            proof {
                assert(pow10((period * 0) as nat) == 1);
                assert(id as int / 1 == id as int);
                assert(right == block_val(id as nat, period as nat, 0));
            }
            while i < freq && !valid_at_freq
                invariant
                    1 <= i <= freq,
                    2 <= freq <= 20,
                    digits == n_digits(id as nat),
                    digits % freq == 0,
                    period == digits / freq,
                    1 <= period <= 10,
                    pivot == pow10(period as nat),
                    right == block_val(id as nat, period as nat, 0),
                    !valid_at_freq ==> id_pivoted == id as int / pow10((period * (i - 1)) as nat),
                    !valid_at_freq ==> forall|j: nat|
                        1 <= j < i ==> #[trigger] block_val(id as nat, period as nat, j) == block_val(
                            id as nat,
                            period as nat,
                            0,
                        ),
                    valid_at_freq ==> !repeats_with(id as nat, digits as nat, freq as nat),
                decreases freq - i,
            {
                proof {
                    lemma_pow10_positive((period * (i - 1)) as nat);
                    lemma_pow10_positive(period as nat);
                    lemma_div_denominator(
                        id as int,
                        pow10((period * (i - 1)) as nat),
                        pow10(period as nat),
                    );
                    lemma_pow10_adds((period * (i - 1)) as nat, period as nat);
                    assert(period * (i - 1) + period == period * i) by (nonlinear_arith);
                }
                id_pivoted = id_pivoted / pivot;
                assert(id_pivoted == id as int / pow10((period * i) as nat));
                if id_pivoted % pivot != right {
                    valid_at_freq = true;
                    proof {
                        assert(block_val(id as nat, period as nat, i as nat) != block_val(
                            id as nat,
                            period as nat,
                            0,
                        ));
                        assert(!repeats_with(id as nat, digits as nat, freq as nat));
                    }
                } else {
                    proof {
                        assert(block_val(id as nat, period as nat, i as nat) == block_val(
                            id as nat,
                            period as nat,
                            0,
                        ));
                    }
                }
                i = i + 1;
            }
            if !valid_at_freq {
                proof {
                    assert(i == freq);
                    assert(repeats_with(id as nat, digits as nat, freq as nat));
                    assert(2 <= freq as nat <= spec_max_freq(n_digits(id as nat), mode));
                }
                return false;
            }
        } else {
            proof {
                assert(!repeats_with(id as nat, digits as nat, freq as nat));
            }
        }
        freq = freq + 1;
    }
    true
}

/// The invalid IDs of the inclusive range `[start, end]`, in increasing
/// order.
pub open spec fn spec_invalid_ids(start: u64, end: u64, mode: Mode) -> Seq<u64>
    decreases end - start,
{
    if start > end {
        Seq::empty()
    } else if start == end {
        if spec_id_is_valid(start, mode) {
            Seq::empty()
        } else {
            seq![start]
        }
    } else {
        (if spec_id_is_valid(start, mode) {
            Seq::empty()
        } else {
            seq![start]
        }) + spec_invalid_ids((start + 1) as u64, end, mode)
    }
}

/// Sum of a sequence of IDs, as a mathematical integer.
pub open spec fn seq_sum(s: Seq<u64>) -> int
    decreases s.len(),
{
    if s.len() == 0 {
        0
    } else {
        s[0] + seq_sum(s.drop_first())
    }
}

pub proof fn lemma_seq_sum_nonneg(s: Seq<u64>)
    ensures
        seq_sum(s) >= 0,
    decreases s.len(),
{
    if s.len() > 0 {
        lemma_seq_sum_nonneg(s.drop_first());
    }
}

/// One step of the range walk: peeling the smallest ID off `[cur, end]`.
proof fn lemma_invalid_ids_unfold(cur: u64, end: u64, mode: Mode)
    requires
        cur <= end,
    ensures
        cur < end ==> spec_invalid_ids(cur, end, mode).len() == (if spec_id_is_valid(cur, mode) {
            0int
        } else {
            1int
        }) + spec_invalid_ids((cur + 1) as u64, end, mode).len(),
        cur < end ==> seq_sum(spec_invalid_ids(cur, end, mode)) == (if spec_id_is_valid(
            cur,
            mode,
        ) {
            0int
        } else {
            cur as int
        }) + seq_sum(spec_invalid_ids((cur + 1) as u64, end, mode)),
        cur == end ==> spec_invalid_ids(cur, end, mode).len() == (if spec_id_is_valid(cur, mode) {
            0int
        } else {
            1int
        }),
        cur == end ==> seq_sum(spec_invalid_ids(cur, end, mode)) == (if spec_id_is_valid(
            cur,
            mode,
        ) {
            0int
        } else {
            cur as int
        }),
{
    if cur == end {
        if !spec_id_is_valid(cur, mode) {
            let s = seq![cur];
            assert(s.len() == 1 && s[0] == cur);
            assert(s.drop_first() =~= Seq::<u64>::empty());
            assert(seq_sum(Seq::<u64>::empty()) == 0);
            assert(seq_sum(s) == cur);
        }
    } else {
        let tail = spec_invalid_ids((cur + 1) as u64, end, mode);
        if spec_id_is_valid(cur, mode) {
            assert(Seq::<u64>::empty() + tail =~= tail);
        } else {
            let s = seq![cur] + tail;
            assert(s.len() == 1 + tail.len());
            assert(s[0] == cur);
            assert(s.drop_first() =~= tail);
        }
    }
}

/// The invalid IDs of one range, smallest first.
pub fn invalid_ids_in_range(range: &IdRange, mode: Mode) -> (ids: Vec<u64>)
    ensures
        ids@ == spec_invalid_ids(range.start, range.end, mode),
{
    let mut ids: Vec<u64> = Vec::new();
    let start = range.start;
    let end = range.end;
    if start > end {
        assert(ids@ =~= spec_invalid_ids(start, end, mode));
        return ids;
    }
    let mut cur: u64 = start;
    loop
        invariant_except_break
            start <= cur <= end,
            ids@ + spec_invalid_ids(cur, end, mode) =~= spec_invalid_ids(start, end, mode),
        ensures
            ids@ == spec_invalid_ids(start, end, mode),
        decreases end - cur,
    {
        proof {
            lemma_invalid_ids_unfold(cur, end, mode);
        }
        if !id_is_valid(cur, mode) {
            ids.push(cur);
        }
        if cur == end {
            proof {
                if spec_id_is_valid(cur, mode) {
                    assert(ids@ + Seq::<u64>::empty() =~= ids@);
                } else {
                    assert(spec_invalid_ids(cur, end, mode) =~= seq![cur]);
                }
                assert(ids@ =~= spec_invalid_ids(start, end, mode));
            }
            break;
        }
        proof {
            if spec_id_is_valid(cur, mode) {
                assert(spec_invalid_ids(cur, end, mode) =~= spec_invalid_ids(
                    (cur + 1) as u64,
                    end,
                    mode,
                ));
            } else {
                assert(spec_invalid_ids(cur, end, mode) =~= seq![cur] + spec_invalid_ids(
                    (cur + 1) as u64,
                    end,
                    mode,
                ));
                assert(ids@ + spec_invalid_ids((cur + 1) as u64, end, mode)
                    =~= spec_invalid_ids(start, end, mode));
            }
        }
        cur = cur + 1;
    }
    ids
}

/// Count and sum of the invalid IDs in one inclusive range.
pub fn count_sum_invalid_ids_in_range(range: &IdRange, mode: Mode) -> (acc: (u64, u64))
    requires
        spec_invalid_ids(range.start, range.end, mode).len() <= u64::MAX,
        seq_sum(spec_invalid_ids(range.start, range.end, mode)) <= u64::MAX,
    ensures
        acc.0 == spec_invalid_ids(range.start, range.end, mode).len(),
        acc.1 == seq_sum(spec_invalid_ids(range.start, range.end, mode)),
{
    let start = range.start;
    let end = range.end;
    let mut count: u64 = 0;
    let mut sum: u64 = 0;
    if start > end {
        return (count, sum);
    }
    let mut cur: u64 = start;
    loop
        invariant_except_break
            start <= cur <= end,
            count + spec_invalid_ids(cur, end, mode).len() == spec_invalid_ids(
                start,
                end,
                mode,
            ).len(),
            sum + seq_sum(spec_invalid_ids(cur, end, mode)) == seq_sum(spec_invalid_ids(
                start,
                end,
                mode,
            )),
            spec_invalid_ids(start, end, mode).len() <= u64::MAX,
            seq_sum(spec_invalid_ids(start, end, mode)) <= u64::MAX,
        ensures
            count == spec_invalid_ids(start, end, mode).len(),
            sum == seq_sum(spec_invalid_ids(start, end, mode)),
        decreases end - cur,
    {
        proof {
            lemma_invalid_ids_unfold(cur, end, mode);
            if cur < end {
                lemma_seq_sum_nonneg(spec_invalid_ids((cur + 1) as u64, end, mode));
            }
            lemma_seq_sum_nonneg(spec_invalid_ids(start, end, mode));
        }
        if !id_is_valid(cur, mode) {
            count = count + 1;
            sum = sum + cur;
        }
        if cur == end {
            break;
        }
        cur = cur + 1;
    }
    (count, sum)
}

/// Count of invalid IDs over a whole collection of ranges.
pub open spec fn ranges_invalid_count(rs: Seq<IdRange>, mode: Mode) -> int
    decreases rs.len(),
{
    if rs.len() == 0 {
        0
    } else {
        spec_invalid_ids(rs[0].start, rs[0].end, mode).len() + ranges_invalid_count(
            rs.drop_first(),
            mode,
        )
    }
}

/// Sum of invalid IDs over a whole collection of ranges.
pub open spec fn ranges_invalid_sum(rs: Seq<IdRange>, mode: Mode) -> int
    decreases rs.len(),
{
    if rs.len() == 0 {
        0
    } else {
        seq_sum(spec_invalid_ids(rs[0].start, rs[0].end, mode)) + ranges_invalid_sum(
            rs.drop_first(),
            mode,
        )
    }
}

pub proof fn lemma_ranges_invalid_nonneg(rs: Seq<IdRange>, mode: Mode)
    ensures
        ranges_invalid_count(rs, mode) >= 0,
        ranges_invalid_sum(rs, mode) >= 0,
    decreases rs.len(),
{
    if rs.len() > 0 {
        lemma_seq_sum_nonneg(spec_invalid_ids(rs[0].start, rs[0].end, mode));
        lemma_ranges_invalid_nonneg(rs.drop_first(), mode);
    }
}

/// Total count and sum of invalid IDs across all the given ranges,
/// processed independently and added up.
pub fn calc_count_sum(ranges: &[IdRange], mode: Mode) -> (totals: (u64, u64))
    requires
        ranges_invalid_count(ranges@, mode) <= u64::MAX,
        ranges_invalid_sum(ranges@, mode) <= u64::MAX,
    ensures
        totals.0 == ranges_invalid_count(ranges@, mode),
        totals.1 == ranges_invalid_sum(ranges@, mode),
{
    let mut total_count: u64 = 0;
    let mut total_sum: u64 = 0;
    let mut idx: usize = 0;
    proof {
        assert(ranges@.skip(0) =~= ranges@);
    }
    while idx < ranges.len()
        invariant
            idx <= ranges@.len(),
            total_count + ranges_invalid_count(ranges@.skip(idx as int), mode)
                == ranges_invalid_count(ranges@, mode),
            total_sum + ranges_invalid_sum(ranges@.skip(idx as int), mode) == ranges_invalid_sum(
                ranges@,
                mode,
            ),
            ranges_invalid_count(ranges@, mode) <= u64::MAX,
            ranges_invalid_sum(ranges@, mode) <= u64::MAX,
        decreases ranges@.len() - idx,
    {
        let range = ranges[idx];
        proof {
            let rest = ranges@.skip(idx as int);
            assert(rest[0] == ranges@[idx as int]);
            assert(rest.drop_first() =~= ranges@.skip(idx as int + 1));
            lemma_ranges_invalid_nonneg(rest.drop_first(), mode);
            lemma_seq_sum_nonneg(spec_invalid_ids(range.start, range.end, mode));
        }
        let (count, sum) = count_sum_invalid_ids_in_range(&range, mode);
        total_count = total_count + count;
        total_sum = total_sum + sum;
        idx = idx + 1;
    }
    (total_count, total_sum)
}

/// Ranges are aggregated independently: the totals of two collections
/// laid end to end are the sums of their totals, so collections can be
/// processed in parts and merged by addition.
pub proof fn lemma_ranges_aggregate_by_addition(rs1: Seq<IdRange>, rs2: Seq<IdRange>, mode: Mode)
    ensures
        ranges_invalid_count(rs1 + rs2, mode) == ranges_invalid_count(rs1, mode)
            + ranges_invalid_count(rs2, mode),
        ranges_invalid_sum(rs1 + rs2, mode) == ranges_invalid_sum(rs1, mode) + ranges_invalid_sum(
            rs2,
            mode,
        ),
    decreases rs1.len(),
{
    if rs1.len() == 0 {
        assert(rs1 + rs2 =~= rs2);
    } else {
        assert((rs1 + rs2)[0] == rs1[0]);
        assert((rs1 + rs2).drop_first() =~= rs1.drop_first() + rs2);
        lemma_ranges_aggregate_by_addition(rs1.drop_first(), rs2, mode);
    }
}

/// One range may be cut anywhere: the invalid IDs of `[start, end]` are
/// those of `[start, mid]` followed by those of `[mid + 1, end]`, so a
/// large range can be classified in independent pieces.
pub proof fn lemma_invalid_ids_split(start: u64, mid: u64, end: u64, mode: Mode)
    requires
        start <= mid < end,
    ensures
        spec_invalid_ids(start, end, mode) == spec_invalid_ids(start, mid, mode)
            + spec_invalid_ids((mid + 1) as u64, end, mode),
    decreases mid - start,
{
    let head = if spec_id_is_valid(start, mode) {
        Seq::<u64>::empty()
    } else {
        seq![start]
    };
    let tail = spec_invalid_ids((mid + 1) as u64, end, mode);
    if start == mid {
        assert(spec_invalid_ids(start, mid, mode) == head);
        assert(spec_invalid_ids(start, end, mode) == head + tail);
    } else {
        lemma_invalid_ids_split((start + 1) as u64, mid, end, mode);
        assert(spec_invalid_ids(start, end, mode) == head + spec_invalid_ids(
            (start + 1) as u64,
            end,
            mode,
        ));
        assert(spec_invalid_ids(start, mid, mode) == head + spec_invalid_ids(
            (start + 1) as u64,
            mid,
            mode,
        ));
        assert((head + spec_invalid_ids((start + 1) as u64, mid, mode)) + tail =~= head + (
        spec_invalid_ids((start + 1) as u64, mid, mode) + tail));
    }
}

/// No integer in `[2, n)` divides a prime `n`.
pub open spec fn is_prime(n: nat) -> bool {
    2 <= n && forall|k: nat| 2 <= k < n ==> #[trigger] (n % k) != 0
}

/// An ID whose digit count is a prime other than two is always valid
/// under `Mode::Two`: the only split that mode examines needs an even
/// digit count.
pub proof fn lemma_prime_digit_count_valid_under_two(id: u64)
    requires
        is_prime(n_digits(id as nat)),
        n_digits(id as nat) != 2,
    ensures
        spec_id_is_valid(id, Mode::Two),
{
    let d = n_digits(id as nat);
    assert forall|freq: nat|
        2 <= freq <= spec_max_freq(d, Mode::Two) implies !repeats_with(id as nat, d, freq) by {
        assert(freq == 2);
        if repeats_with(id as nat, d, 2) {
            assert(d % 2 == 0);
            assert(2 < d);
            assert(d % 2 != 0);
        }
    }
}

/// Every split that `Mode::Two` examines is also examined under
/// `Mode::Multiple`, so an ID rejected by `Two` is rejected by
/// `Multiple` as well.
pub proof fn lemma_two_invalid_implies_multiple_invalid(id: u64)
    ensures
        !spec_id_is_valid(id, Mode::Two) ==> !spec_id_is_valid(id, Mode::Multiple),
{
    let d = n_digits(id as nat);
    if !spec_id_is_valid(id, Mode::Two) {
        assert(exists|f: nat| 2 <= f <= spec_max_freq(d, Mode::Two) && repeats_with(id as nat, d, f));
        let f = choose|f: nat| 2 <= f <= spec_max_freq(d, Mode::Two) && repeats_with(id as nat, d, f);
        assert(f == 2);
        assert(d % 2 == 0);
        assert(d >= 1);
        if d < 2 {
            lemma_small_mod(1, 2);
        }
        assert(2 <= spec_max_freq(d, Mode::Multiple));
        assert(repeats_with(id as nat, d, 2));
        assert(!spec_id_is_valid(id, Mode::Multiple));
    }
}

/// Aggregating a one-element range yields one invalid ID summing to the
/// ID itself when it is invalid, and nothing otherwise.
pub proof fn lemma_single_element_range(a: u64, mode: Mode)
    ensures
        spec_invalid_ids(a, a, mode).len() == if spec_id_is_valid(a, mode) {
            0int
        } else {
            1int
        },
        seq_sum(spec_invalid_ids(a, a, mode)) == if spec_id_is_valid(a, mode) {
            0int
        } else {
            a as int
        },
{
    lemma_invalid_ids_unfold(a, a, mode);
}

/// Zero has a single digit, which no block count of two or more splits,
/// so it is valid in every mode.
pub proof fn lemma_zero_is_valid(mode: Mode)
    ensures
        spec_id_is_valid(0, mode),
{
    assert(n_digits(0) == 1);
    assert forall|freq: nat|
        2 <= freq <= spec_max_freq(1, mode) implies !repeats_with(0, 1, freq) by {
        if freq == 2 {
            lemma_small_mod(1, 2);
        }
    }
}

/// A 64-bit number read at `i`: its value and the index just past its
/// digits, or nothing when no digit stands at `i` or the value does not
/// fit.
pub open spec fn spec_parse_u64_at(s: Seq<char>, i: int) -> Option<(u64, int)> {
    let e = digit_run_end(s, i);
    if e == i || digits_value(s, i, e) > u64::MAX {
        None
    } else {
        Some((digits_value(s, i, e) as u64, e))
    }
}

/// `digits '-' digits` read at `i`: the range and the index just past
/// it.
pub open spec fn spec_parse_id_range_at(s: Seq<char>, i: int) -> Option<(IdRange, int)> {
    match spec_parse_u64_at(s, i) {
        None => None,
        Some(p) => if p.1 < s.len() && s[p.1] == '-' {
            match spec_parse_u64_at(s, p.1 + 1) {
                None => None,
                Some(q) => Some((IdRange { start: p.0, end: q.0 }, q.1)),
            }
        } else {
            None
        },
    }
}

/// First index at or after `i` that is past the end of `s` or holds a
/// character other than space, tab, carriage return or newline.
pub open spec fn whitespace_end(s: Seq<char>, i: int) -> int
    decreases s.len() - i,
{
    if !(0 <= i < s.len()) {
        i
    } else if s[i] == ' ' || s[i] == '\t' || s[i] == '\r' || s[i] == '\n' {
        whitespace_end(s, i + 1)
    } else {
        i
    }
}

/// The ranges read by repeating `',' ws* digits '-' digits` from `i`,
/// and the index where the repetition stops.
pub open spec fn spec_parse_more_ranges(s: Seq<char>, i: int) -> (Seq<IdRange>, int)
    decreases s.len() - i,
{
    if 0 <= i < s.len() && s[i] == ',' {
        let j = whitespace_end(s, i + 1);
        match spec_parse_id_range_at(s, j) {
            None => (Seq::empty(), i),
            Some(p) => if i < p.1 <= s.len() {
                let rest = spec_parse_more_ranges(s, p.1);
                (seq![p.0] + rest.0, rest.1)
            } else {
                (Seq::empty(), i)
            },
        }
    } else {
        (Seq::empty(), i)
    }
}

/// The whole comma-separated range list read from the start of `s`:
/// one range, then as many `',' ws* range` tails as the text offers.
pub open spec fn spec_parse_id_range_sequence(s: Seq<char>) -> Option<(Seq<IdRange>, int)> {
    match spec_parse_id_range_at(s, 0) {
        None => None,
        Some(p) => {
            let rest = spec_parse_more_ranges(s, p.1);
            Some((seq![p.0] + rest.0, rest.1))
        },
    }
}

/// Is `c` one of the separator whitespace characters?
fn char_is_space(c: char) -> (r: bool)
    ensures
        r == (c == ' ' || c == '\t' || c == '\r' || c == '\n'),
{
    c == ' ' || c == '\t' || c == '\r' || c == '\n'
}

/// Advances over separator whitespace.
fn skip_whitespace(s: &str, i: usize) -> (j: usize)
    requires
        i <= s@.len(),
    ensures
        j == whitespace_end(s@, i as int),
        i <= j <= s@.len(),
{
    let len: usize = s.unicode_len();
    let mut j: usize = i;
    while j < len && char_is_space(s.get_char(j))
        invariant
            i <= j <= len,
            len == s@.len(),
            whitespace_end(s@, i as int) == whitespace_end(s@, j as int),
        decreases len - j,
    {
        j = j + 1;
    }
    j
}

/// Reads `digits '-' digits` at position `i` of `s`.
fn parse_id_range_at(s: &str, i: usize) -> (r: Option<(IdRange, usize)>)
    ensures
        match spec_parse_id_range_at(s@, i as int) {
            None => r is None,
            Some(p) => r matches Some(q) && q.0 == p.0 && q.1 == p.1,
        },
        r matches Some(q) ==> i < q.1 <= s@.len(),
{
    match scan_u64(s, i) {
        None => None,
        Some((start, j)) => {
            let len: usize = s.unicode_len();
            if j < len {
                let c = s.get_char(j);
                if c == '-' {
                    match scan_u64(s, j + 1) {
                        None => None,
                        Some((end, k)) => Some((IdRange { start, end }, k)),
                    }
                } else {
                    None
                }
            } else {
                None
            }
        },
    }
}

/// Parses one `start-end` range from the beginning of `s`, returning it
/// together with the count of characters consumed.
pub fn parse_id_range(s: &str) -> (r: Option<(IdRange, usize)>)
    ensures
        match spec_parse_id_range_at(s@, 0) {
            None => r is None,
            Some(p) => r matches Some(q) && q.0 == p.0 && q.1 == p.1,
        },
{
    parse_id_range_at(s, 0)
}

/// Parses the comma-separated range list
/// `digits '-' digits (',' ws* digits '-' digits)*` from the beginning
/// of `s`, returning the ranges and the count of characters consumed.
pub fn parse_id_range_sequence(s: &str) -> (r: Option<(Vec<IdRange>, usize)>)
    ensures
        match spec_parse_id_range_sequence(s@) {
            None => r is None,
            Some(p) => r matches Some(q) && q.0@ == p.0 && q.1 == p.1,
        },
{
    match parse_id_range_at(s, 0) {
        None => None,
        Some((first, k0)) => {
            let mut out: Vec<IdRange> = Vec::new();
            out.push(first);
            let mut pos: usize = k0;
            let len: usize = s.unicode_len();
            proof {
                assert(out@ =~= seq![first]);
            }
            loop
                invariant_except_break
                    pos <= len,
                    len == s@.len(),
                    spec_parse_id_range_sequence(s@) matches Some(t) && out@ + spec_parse_more_ranges(
                        s@,
                        pos as int,
                    ).0 =~= t.0 && spec_parse_more_ranges(s@, pos as int).1 == t.1,
                ensures
                    spec_parse_id_range_sequence(s@) matches Some(t) && out@ =~= t.0 && pos == t.1,
                decreases s@.len() - pos,
            {
                if pos < len {
                    let c = s.get_char(pos);
                    if c == ',' {
                        let j = skip_whitespace(s, pos + 1);
                        match parse_id_range_at(s, j) {
                            Some((rng, k)) => {
                                proof {
                                    let more = spec_parse_more_ranges(s@, pos as int);
                                    let rest = spec_parse_more_ranges(s@, k as int);
                                    assert(more.0 == seq![rng] + rest.0 && more.1 == rest.1);
                                    assert(out@.push(rng) =~= out@ + seq![rng]);
                                    assert((out@ + seq![rng]) + rest.0 =~= out@ + (seq![rng]
                                        + rest.0));
                                }
                                out.push(rng);
                                pos = k;
                            },
                            None => {
                                proof {
                                    assert(out@ + Seq::<IdRange>::empty() =~= out@);
                                }
                                break ;
                            },
                        }
                    } else {
                        proof {
                            assert(out@ + Seq::<IdRange>::empty() =~= out@);
                        }
                        break ;
                    }
                } else {
                    proof {
                        assert(out@ + Seq::<IdRange>::empty() =~= out@);
                    }
                    break ;
                }
            }
            Some((out, pos))
        },
    }
}

} // verus!
