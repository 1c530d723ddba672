//! A minimal dial simulation: the same circular dial as [`crate::dial`]
//! but without the mid-rotation zero bookkeeping — only rotations that
//! end exactly on 0 are counted.

use vstd::prelude::*;
use vstd::arithmetic::div_mod::lemma_fundamental_div_mod_converse;
use crate::digits::{digit_run_end, digits_value, scan_u64, str_eq};

verus! {

/// Failure categories of the minimal solver.
#[derive(Debug)]
pub enum AocError {
    ParseError(String),
    NomError(String),
}

/// A rotation direction.
#[derive(Debug, PartialEq, Eq, Structural, Clone, Copy)]
pub enum Operation {
    Left,
    Right,
}

impl Operation {
    /// Reads a one-letter operation name.
    pub fn from_str(op: &str) -> (r: Option<Operation>)
        ensures
            r == (if op@ == "L"@ {
                Some(Operation::Left)
            } else if op@ == "R"@ {
                Some(Operation::Right)
            } else {
                None::<Operation>
            }),
    {
        if str_eq(op, "L") {
            Some(Operation::Left)
        } else if str_eq(op, "R") {
            Some(Operation::Right)
        } else {
            None
        }
    }
}

/// One rotation: a direction and a distance.
#[derive(Debug, PartialEq, Eq, Structural, Clone, Copy)]
pub struct Instruction {
    pub operation: Operation,
    pub argument: u32,
}

impl Instruction {
    pub fn new(op: Operation, count: u32) -> (ins: Instruction)
        ensures
            ins.operation == op,
            ins.argument == count,
    {
        Instruction { operation: op, argument: count }
    }
}

/// The dial position after applying one instruction from position `num`.
pub open spec fn spec_next_num(num: int, ins: Instruction) -> int {
    match ins.operation {
        Operation::Left => (num - ins.argument) % 100,
        Operation::Right => (num + ins.argument) % 100,
    }
}

/// The dial position after a whole run of instructions.
pub open spec fn spec_run_num(num: int, instrs: Seq<Instruction>) -> int
    decreases instrs.len(),
{
    if instrs.len() == 0 {
        num
    } else {
        spec_run_num(spec_next_num(num, instrs[0]), instrs.drop_first())
    }
}

/// Rotations that end exactly on 0 over a whole run.
pub open spec fn spec_run_zero_count(num: int, instrs: Seq<Instruction>) -> int
    decreases instrs.len(),
{
    if instrs.len() == 0 {
        0
    } else {
        (if spec_next_num(num, instrs[0]) == 0 {
            1int
        } else {
            0int
        }) + spec_run_zero_count(spec_next_num(num, instrs[0]), instrs.drop_first())
    }
}

/// The dial, pointing at one of the positions `0..=99`.
#[derive(Debug, PartialEq, Eq, Structural)]
pub struct State {
    pub num: u32,
}

impl State {
    /// Applies one instruction.
    pub fn apply(&mut self, instruction: Instruction)
        requires
            old(self).num < 100,
            instruction.argument <= u32::MAX - 100,
        ensures
            final(self).num < 100,
            final(self).num == spec_next_num(old(self).num as int, instruction),
    {
        let ghost num0: int = self.num as int;
        match instruction {
            Instruction { operation: Operation::Left, argument: count } => {
                let ghost mut j: int = 0;
                while count > self.num
                    invariant
                        self.num == num0 + 100 * j,
                        0 <= j,
                        j >= 1 ==> self.num - 100 < count,
                        0 <= num0 < 100,
                        count <= u32::MAX - 100,
                    decreases count + 100 - self.num,
                {
                    self.num = self.num + 100;
                    proof {
                        j = j + 1;
                    }
                }
                proof {
                    let v = num0 + 100 * j - count;
                    assert(0 <= v < 100);
                    lemma_fundamental_div_mod_converse(num0 - count, 100, -j, v);
                }
                self.num = self.num - count;
            },
            Instruction { operation: Operation::Right, argument: count } => {
                self.num = (self.num + count) % 100;
            },
        }
    }

    /// Applies a whole run of instructions, counting the rotations that
    /// leave the dial pointing at 0.
    pub fn apply_multiple(&mut self, instructions: Vec<Instruction>) -> (zero_count: u32)
        requires
            old(self).num < 100,
            instructions@.len() <= u32::MAX,
            forall|k: int|
                0 <= k < instructions@.len() ==> #[trigger] instructions@[k].argument <= u32::MAX
                    - 100,
        ensures
            final(self).num < 100,
            final(self).num == spec_run_num(old(self).num as int, instructions@),
            zero_count == spec_run_zero_count(old(self).num as int, instructions@),
    {
        let ghost num0: int = self.num as int;
        let mut zero_count: u32 = 0;
        let mut i: usize = 0;
        proof {
            assert(instructions@.skip(0) =~= instructions@);
        }
        while i < instructions.len()
            invariant
                i <= instructions@.len(),
                instructions@.len() <= u32::MAX,
                self.num < 100,
                zero_count <= i,
                forall|k: int|
                    0 <= k < instructions@.len() ==> #[trigger] instructions@[k].argument
                        <= u32::MAX - 100,
                spec_run_num(self.num as int, instructions@.skip(i as int)) == spec_run_num(
                    num0,
                    instructions@,
                ),
                zero_count + spec_run_zero_count(self.num as int, instructions@.skip(i as int))
                    == spec_run_zero_count(num0, instructions@),
            decreases instructions@.len() - i,
        {
            let ins = instructions[i];
            proof {
                let rest = instructions@.skip(i as int);
                assert(rest[0] == instructions@[i as int]);
                assert(rest.drop_first() =~= instructions@.skip(i as int + 1));
            }
            self.apply(ins);
            if self.num == 0 {
                zero_count = zero_count + 1;
            }
            i = i + 1;
        }
        zero_count
    }
}

/// The rotation direction letter at the start of `s`, with the index
/// past it.
pub open spec fn spec_parse_op(s: Seq<char>) -> Option<(Operation, int)> {
    if s.len() >= 1 && s[0] == 'L' {
        Some((Operation::Left, 1int))
    } else if s.len() >= 1 && s[0] == 'R' {
        Some((Operation::Right, 1int))
    } else {
        None
    }
}

/// The rotation distance read at `i`, as in the richer dial's grammar.
pub open spec fn spec_parse_count_at(s: Seq<char>, i: int) -> Option<(u32, int)> {
    let e = digit_run_end(s, i);
    if e == i || digits_value(s, i, e) > u32::MAX {
        None
    } else {
        Some((digits_value(s, i, e) as u32, e))
    }
}

/// A whole instruction, `('L' | 'R') digits`, read from the start of
/// `s`.
pub open spec fn spec_parse_instruction(s: Seq<char>) -> Option<((Operation, u32), int)> {
    match spec_parse_op(s) {
        None => None,
        Some(p) => match spec_parse_count_at(s, p.1) {
            None => None,
            Some(q) => Some(((p.0, q.0), q.1)),
        },
    }
}

/// Parses one instruction line; text after the instruction is ignored.
/// A line that does not start with an instruction comes back as a
/// grammar error carrying the line itself.
pub fn parse(line: &str) -> (r: Result<Instruction, AocError>)
    ensures
        match spec_parse_instruction(line@) {
            None => r matches Err(e) && e matches AocError::NomError(m) && m@ == line@,
            Some(p) => r matches Ok(ins) && ins.operation == p.0.0 && ins.argument == p.0.1,
        },
{
    let op = if s_starts_l(line) {
        Some((Operation::Left, 1usize))
    } else if s_starts_r(line) {
        Some((Operation::Right, 1usize))
    } else {
        None
    };
    match op {
        None => Err(AocError::NomError(line.to_owned())),
        Some((op, j)) => match scan_u64(line, j) {
            None => Err(AocError::NomError(line.to_owned())),
            Some((v, _)) => if v > u32::MAX as u64 {
                Err(AocError::NomError(line.to_owned()))
            } else {
                Ok(Instruction::new(op, v as u32))
            },
        },
    }
}

/// Does `s` start with the letter `L`?
fn s_starts_l(s: &str) -> (r: bool)
    ensures
        r == (s@.len() >= 1 && s@[0] == 'L'),
{
    s.unicode_len() >= 1 && s.get_char(0) == 'L'
}

/// Does `s` start with the letter `R`?
fn s_starts_r(s: &str) -> (r: bool)
    ensures
        r == (s@.len() >= 1 && s@[0] == 'R'),
{
    s.unicode_len() >= 1 && s.get_char(0) == 'R'
}

} // verus!
