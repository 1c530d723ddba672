//! Dial-rotation simulation: a circular dial with positions `0..=99`
//! that instructions rotate left or right, counting the times it points
//! at 0 — either only where a rotation ends, or also while it passes 0.

use vstd::prelude::*;
use vstd::arithmetic::div_mod::lemma_fundamental_div_mod_converse;
use crate::digits::{digit_run_end, digits_value, scan_u64, str_eq};
use crate::error::AocError;

verus! {

/// Whether zeros are counted only where a rotation ends, or also while
/// the dial passes 0 mid-rotation.
#[derive(Debug, PartialEq, Eq, Structural, Clone, Copy)]
pub enum Mode {
    CountZerosAfterRotation,
    CountZerosDuringRotation,
}

impl From<&str> for Mode {
    /// Resolves the textual mode selector; anything unrecognized falls
    /// back to counting only after rotations.
    fn from(s: &str) -> (m: Mode) {
        if str_eq(s, "after") {
            Mode::CountZerosAfterRotation
        } else if str_eq(s, "during") {
            Mode::CountZerosDuringRotation
        } else {
            Mode::CountZerosAfterRotation
        }
    }
}

impl vstd::std_specs::convert::FromSpecImpl<&str> for Mode {
    open spec fn obeys_from_spec() -> bool {
        true
    }

    open spec fn from_spec(s: &str) -> Mode {
        if s@ == "after"@ {
            Mode::CountZerosAfterRotation
        } else if s@ == "during"@ {
            Mode::CountZerosDuringRotation
        } else {
            Mode::CountZerosAfterRotation
        }
    }
}

/// A rotation direction.
#[derive(Debug, PartialEq, Eq, Structural, Clone, Copy)]
pub enum Operation {
    Left,
    Right,
}

impl Operation {
    /// Reads a one-letter operation name.
    pub fn from_str(op: &str) -> (r: Option<Operation>)
        ensures
            r == (if op@ == "L"@ {
                Some(Operation::Left)
            } else if op@ == "R"@ {
                Some(Operation::Right)
            } else {
                None::<Operation>
            }),
    {
        if str_eq(op, "L") {
            Some(Operation::Left)
        } else if str_eq(op, "R") {
            Some(Operation::Right)
        } else {
            None
        }
    }
}

/// One rotation: a direction and a distance.
#[derive(Debug, PartialEq, Eq, Structural, Clone, Copy)]
pub struct Instruction {
    pub operation: Operation,
    pub argument: u32,
}

impl Instruction {
    pub fn new(op: Operation, count: u32) -> (ins: Instruction)
        ensures
            ins.operation == op,
            ins.argument == count,
    {
        Instruction { operation: op, argument: count }
    }
}

/// The dial position after applying one instruction from position `num`.
pub open spec fn spec_next_num(num: int, ins: Instruction) -> int {
    match ins.operation {
        Operation::Left => (num - ins.argument) % 100,
        Operation::Right => (num + ins.argument) % 100,
    }
}

/// How often a left rotation by `count` from `num` passes 0 on the way
/// (a start already at 0 is not counted).
pub open spec fn spec_left_zeros(num: int, count: int) -> int {
    if count <= num {
        0
    } else {
        (count - num + 99) / 100 - (if num == 0 {
            1int
        } else {
            0int
        })
    }
}

/// How often a right rotation by `count` from `num` passes 0 on the way
/// (a landing exactly on 0 is not counted).
pub open spec fn spec_right_zeros(num: int, count: int) -> int {
    (num + count) / 100 - (if (num + count) % 100 == 0 {
        1int
    } else {
        0int
    })
}

/// Zeros passed while one instruction rotates the dial from `num`.
pub open spec fn spec_zeros(num: int, ins: Instruction) -> int {
    match ins.operation {
        Operation::Left => spec_left_zeros(num, ins.argument as int),
        Operation::Right => spec_right_zeros(num, ins.argument as int),
    }
}

/// A right rotation by 0 from position 0 is the one case whose zero
/// bookkeeping would underflow.
pub open spec fn spec_can_apply(num: int, ins: Instruction) -> bool {
    !(ins.operation == Operation::Right && num == 0 && ins.argument == 0)
}

pub proof fn lemma_spec_zeros_nonneg(num: int, ins: Instruction)
    requires
        0 <= num,
        spec_can_apply(num, ins),
    ensures
        spec_zeros(num, ins) >= 0,
{
    match ins.operation {
        Operation::Left => {
            if ins.argument > num {
                assert((ins.argument - num + 99) / 100 >= 1) by {
                    lemma_fundamental_div_mod_converse(
                        ins.argument - num + 99,
                        100,
                        (ins.argument - num + 99) / 100,
                        (ins.argument - num + 99) % 100,
                    );
                }
            }
        },
        Operation::Right => {
            let t = num + ins.argument;
            if t % 100 == 0 {
                assert(t >= 1);
                assert(t / 100 >= 1) by {
                    lemma_fundamental_div_mod_converse(t, 100, t / 100, t % 100);
                }
            } else {
                assert(t / 100 >= 0) by {
                    lemma_fundamental_div_mod_converse(t, 100, t / 100, t % 100);
                }
            }
        },
    }
}

/// The dial, pointing at one of the positions `0..=99`.
#[derive(Debug, PartialEq, Eq, Structural)]
pub struct State {
    pub num: u32,
}

impl State {
    /// A fresh dial points at 50.
    pub fn new() -> (s: State)
        ensures
            s.num == 50,
    {
        State { num: 50 }
    }

    /// Applies one instruction and returns how often the dial passed 0
    /// during the rotation. The mode and verbose flags only shape the
    /// caller's reporting; they do not affect the rotation itself.
    pub fn apply(&mut self, instruction: Instruction, _mode: Mode, _verbose: bool) -> (zeros: u32)
        requires
            old(self).num < 100,
            instruction.argument <= u32::MAX - 100,
            spec_can_apply(old(self).num as int, instruction),
        ensures
            final(self).num < 100,
            final(self).num == spec_next_num(old(self).num as int, instruction),
            zeros == spec_zeros(old(self).num as int, instruction),
    {
        let mut zeros: u32 = 0;
        let ghost num0: int = self.num as int;
        match instruction {
            Instruction { operation: Operation::Left, argument: count } => {
                let ghost mut j: int = 0;
                while count > self.num
                    invariant
                        self.num == num0 + 100 * j,
                        0 <= j,
                        j >= 1 ==> self.num - 100 < count,
                        zeros == j - (if num0 == 0 && j >= 1 {
                            1int
                        } else {
                            0int
                        }),
                        0 <= num0 < 100,
                        count <= u32::MAX - 100,
                    decreases count + 100 - self.num,
                {
                    if self.num != 0 {
                        zeros = zeros + 1;
                    }
                    self.num = self.num + 100;
                    proof {
                        j = j + 1;
                    }
                }
                proof {
                    if count <= num0 {
                        assert(j == 0);
                        assert(zeros == spec_left_zeros(num0, count as int));
                    } else {
                        assert(j >= 1);
                        let a = count - num0 + 99;
                        assert(100 * j <= a < 100 * (j + 1));
                        lemma_fundamental_div_mod_converse(a, 100, j, a - 100 * j);
                        assert(j == a / 100);
                        assert(zeros == spec_left_zeros(num0, count as int));
                    }
                    let v = num0 + 100 * j - count;
                    assert(0 <= v < 100);
                    lemma_fundamental_div_mod_converse(num0 - count, 100, -j, v);
                    assert(v == (num0 - count) % 100);
                }
                self.num = self.num - count;
            },
            Instruction { operation: Operation::Right, argument: count } => {
                self.num = self.num + count;
                zeros = zeros + self.num / 100;
                proof {
                    let t = num0 + count;
                    lemma_fundamental_div_mod_converse(t, 100, t / 100, t % 100);
                }
                self.num = self.num % 100;
                if self.num == 0 {
                    proof {
                        let t = num0 + count;
                        assert(t % 100 == 0);
                        assert(t >= 1);
                        assert(t / 100 >= 1);
                    }
                    zeros = zeros - 1;
                }
            },
        }
        zeros
    }
}

/// The dial position after a whole run of instructions.
pub open spec fn spec_run_num(num: int, instrs: Seq<Instruction>) -> int
    decreases instrs.len(),
{
    if instrs.len() == 0 {
        num
    } else {
        spec_run_num(spec_next_num(num, instrs[0]), instrs.drop_first())
    }
}

/// Zeros passed mid-rotation over a whole run.
pub open spec fn spec_run_zeros_during(num: int, instrs: Seq<Instruction>) -> int
    decreases instrs.len(),
{
    if instrs.len() == 0 {
        0
    } else {
        spec_zeros(num, instrs[0]) + spec_run_zeros_during(
            spec_next_num(num, instrs[0]),
            instrs.drop_first(),
        )
    }
}

/// Rotations that end exactly on 0 over a whole run.
pub open spec fn spec_run_zeros_after(num: int, instrs: Seq<Instruction>) -> int
    decreases instrs.len(),
{
    if instrs.len() == 0 {
        0
    } else {
        (if spec_next_num(num, instrs[0]) == 0 {
            1int
        } else {
            0int
        }) + spec_run_zeros_after(spec_next_num(num, instrs[0]), instrs.drop_first())
    }
}

/// Every instruction of the run keeps its distance in range and never
/// hits the one underflowing case of [`spec_can_apply`].
pub open spec fn spec_can_run(num: int, instrs: Seq<Instruction>) -> bool
    decreases instrs.len(),
{
    if instrs.len() == 0 {
        true
    } else {
        &&& instrs[0].argument <= u32::MAX - 100
        &&& spec_can_apply(num, instrs[0])
        &&& spec_can_run(spec_next_num(num, instrs[0]), instrs.drop_first())
    }
}

pub proof fn lemma_run_zeros_nonneg(num: int, instrs: Seq<Instruction>)
    requires
        0 <= num,
        spec_can_run(num, instrs),
    ensures
        spec_run_zeros_during(num, instrs) >= 0,
        spec_run_zeros_after(num, instrs) >= 0,
    decreases instrs.len(),
{
    if instrs.len() > 0 {
        lemma_spec_zeros_nonneg(num, instrs[0]);
        let next = spec_next_num(num, instrs[0]);
        assert(0 <= next < 100) by {
            match instrs[0].operation {
                Operation::Left => {
                    lemma_mod_bound(num - instrs[0].argument);
                },
                Operation::Right => {
                    lemma_mod_bound(num + instrs[0].argument);
                },
            }
        }
        lemma_run_zeros_nonneg(next, instrs.drop_first());
    }
}

/// Euclidean remainder by 100 lies in `0..=99`.
proof fn lemma_mod_bound(x: int)
    ensures
        0 <= x % 100 < 100,
{
}

impl State {
    /// Applies a whole run of instructions and returns the zero count
    /// that the mode asks for: rotations ending on 0, or additionally
    /// every 0 passed mid-rotation.
    pub fn apply_multiple(
        &mut self,
        instructions: Vec<Instruction>,
        mode: Mode,
        verbose: bool,
    ) -> (zeros: u32)
        requires
            old(self).num < 100,
            spec_can_run(old(self).num as int, instructions@),
            spec_run_zeros_during(old(self).num as int, instructions@) + spec_run_zeros_after(
                old(self).num as int,
                instructions@,
            ) <= u32::MAX,
        ensures
            final(self).num < 100,
            final(self).num == spec_run_num(old(self).num as int, instructions@),
            zeros == (match mode {
                Mode::CountZerosAfterRotation => spec_run_zeros_after(
                    old(self).num as int,
                    instructions@,
                ),
                Mode::CountZerosDuringRotation => spec_run_zeros_during(
                    old(self).num as int,
                    instructions@,
                ) + spec_run_zeros_after(old(self).num as int, instructions@),
            }),
    {
        let ghost num0: int = self.num as int;
        let mut zeros_after: u32 = 0;
        let mut zeros_during: u32 = 0;
        let mut i: usize = 0;
        proof {
            assert(instructions@.skip(0) =~= instructions@);
        }
        while i < instructions.len()
            invariant
                i <= instructions@.len(),
                self.num < 100,
                spec_can_run(self.num as int, instructions@.skip(i as int)),
                spec_run_num(self.num as int, instructions@.skip(i as int)) == spec_run_num(
                    num0,
                    instructions@,
                ),
                zeros_during + spec_run_zeros_during(self.num as int, instructions@.skip(i as int))
                    == spec_run_zeros_during(num0, instructions@),
                zeros_after + spec_run_zeros_after(self.num as int, instructions@.skip(i as int))
                    == spec_run_zeros_after(num0, instructions@),
                spec_run_zeros_during(num0, instructions@) + spec_run_zeros_after(
                    num0,
                    instructions@,
                ) <= u32::MAX,
                zeros_during >= 0,
                zeros_after >= 0,
            decreases instructions@.len() - i,
        {
            let ins = instructions[i];
            proof {
                let rest = instructions@.skip(i as int);
                assert(rest[0] == instructions@[i as int]);
                assert(rest.drop_first() =~= instructions@.skip(i as int + 1));
                lemma_spec_zeros_nonneg(self.num as int, ins);
                lemma_run_zeros_nonneg(
                    spec_next_num(self.num as int, ins),
                    rest.drop_first(),
                );
            }
            let z = self.apply(ins, mode, verbose);
            zeros_during = zeros_during + z;
            if self.num == 0 {
                zeros_after = zeros_after + 1;
            }
            i = i + 1;
        }
        if mode == Mode::CountZerosDuringRotation {
            zeros_during + zeros_after
        } else {
            zeros_after
        }
    }
}

/// The rotation direction letter at the start of `s`, with the index
/// past it.
pub open spec fn spec_parse_op(s: Seq<char>) -> Option<(Operation, int)> {
    if s.len() >= 1 && s[0] == 'L' {
        Some((Operation::Left, 1int))
    } else if s.len() >= 1 && s[0] == 'R' {
        Some((Operation::Right, 1int))
    } else {
        None
    }
}

/// The rotation distance read at `i`: its value and the index past it,
/// or nothing when no digit stands there or the value does not fit in
/// 32 bits.
pub open spec fn spec_parse_count_at(s: Seq<char>, i: int) -> Option<(u32, int)> {
    let e = digit_run_end(s, i);
    if e == i || digits_value(s, i, e) > u32::MAX {
        None
    } else {
        Some((digits_value(s, i, e) as u32, e))
    }
}

/// A whole instruction, `('L' | 'R') digits`, read from the start of
/// `s`.
pub open spec fn spec_parse_instruction(s: Seq<char>) -> Option<((Operation, u32), int)> {
    match spec_parse_op(s) {
        None => None,
        Some(p) => match spec_parse_count_at(s, p.1) {
            None => None,
            Some(q) => Some(((p.0, q.0), q.1)),
        },
    }
}

/// Reads the rotation direction letter at the start of `s`.
pub fn parse_op(s: &str) -> (r: Option<(Operation, usize)>)
    ensures
        match spec_parse_op(s@) {
            None => r is None,
            Some(p) => r matches Some(q) && q.0 == p.0 && q.1 == p.1,
        },
{
    if s.unicode_len() >= 1 {
        let c = s.get_char(0);
        if c == 'L' {
            Some((Operation::Left, 1))
        } else if c == 'R' {
            Some((Operation::Right, 1))
        } else {
            None
        }
    } else {
        None
    }
}

/// Reads a rotation distance at position `i` of `s`.
fn parse_count_at(s: &str, i: usize) -> (r: Option<(u32, usize)>)
    ensures
        match spec_parse_count_at(s@, i as int) {
            None => r is None,
            Some(p) => r matches Some(q) && q.0 == p.0 && q.1 == p.1,
        },
{
    match scan_u64(s, i) {
        None => None,
        Some((v, j)) => if v > u32::MAX as u64 {
            None
        } else {
            Some((v as u32, j))
        },
    }
}

/// Reads a rotation distance at the start of `s`.
pub fn parse_count(s: &str) -> (r: Option<(u32, usize)>)
    ensures
        match spec_parse_count_at(s@, 0) {
            None => r is None,
            Some(p) => r matches Some(q) && q.0 == p.0 && q.1 == p.1,
        },
{
    parse_count_at(s, 0)
}

/// Reads a whole instruction, direction letter then distance, from the
/// start of `s`.
pub fn parse_instruction(s: &str) -> (r: Option<((Operation, u32), usize)>)
    ensures
        match spec_parse_instruction(s@) {
            None => r is None,
            Some(p) => r matches Some(q) && q.0 == p.0 && q.1 == p.1,
        },
{
    match parse_op(s) {
        None => None,
        Some((op, j)) => match parse_count_at(s, j) {
            None => None,
            Some((count, k)) => Some(((op, count), k)),
        },
    }
}

/// Parses one instruction line; text after the instruction is ignored.
/// A line that does not start with an instruction comes back as a
/// grammar error carrying the line itself.
pub fn parse(line: &str) -> (r: Result<Instruction, AocError>)
    ensures
        match spec_parse_instruction(line@) {
            None => r matches Err(e) && e matches AocError::NomError(m) && m@ == line@,
            Some(p) => r matches Ok(ins) && ins.operation == p.0.0 && ins.argument == p.0.1,
        },
{
    match parse_instruction(line) {
        None => Err(AocError::NomError(line.to_owned())),
        Some(((op, count), _)) => Ok(Instruction::new(op, count)),
    }
}

} // verus!
