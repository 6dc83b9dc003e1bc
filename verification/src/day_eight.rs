//! A handheld game console: running its program until an instruction
//! repeats, and repairing the one corrupted jump or no-op.

use vstd::prelude::*;

use vstd::set_lib::lemma_int_range;
use vstd::set_lib::lemma_len_subset;
use vstd::set_lib::set_int_range;

verus! {

/// One instruction of the console program.
#[derive(Clone, Copy, PartialEq, Eq, Structural, Debug)]
pub enum Instruction {
    NOP(isize),
    ACC(isize),
    JMP(isize),
}

/// The state when the program first leaves its code or is about to repeat
/// an instruction: the instruction counter there and the accumulator. One
/// step accumulates and advances, jumps, or just advances.
pub open spec fn spec_run(
    instrs: Seq<Instruction>,
    pc: int,
    sum: int,
    visited: Set<int>,
) -> (int, int)
    decreases instrs.len() - visited.len(),
    when visited.finite() && visited.subset_of(set_int_range(0, instrs.len() as int))
    via spec_run_decreases
{
    if pc < 0 || pc >= instrs.len() || visited.contains(pc) {
        (pc, sum)
    } else {
        let v2 = visited.insert(pc);
        match instrs[pc] {
            Instruction::ACC(a) => spec_run(instrs, pc + 1, sum + a, v2),
            Instruction::JMP(a) => spec_run(instrs, pc + a, sum, v2),
            Instruction::NOP(_) => spec_run(instrs, pc + 1, sum, v2),
        }
    }
}

#[via_fn]
proof fn spec_run_decreases(instrs: Seq<Instruction>, pc: int, sum: int, visited: Set<int>) {
    broadcast use vstd::set::axiom_set_insert_len;

    if !(pc < 0 || pc >= instrs.len() || visited.contains(pc)) {
        lemma_int_range(0, instrs.len() as int);
        lemma_len_subset(visited.insert(pc), set_int_range(0, instrs.len() as int));
    }
}

/// The run stays within machine bounds: every accumulator value fits the
/// accumulator type and every jump target is a usable position.
pub open spec fn spec_run_ok(instrs: Seq<Instruction>, pc: int, sum: int, visited: Set<int>) -> bool
    decreases instrs.len() - visited.len(),
    when visited.finite() && visited.subset_of(set_int_range(0, instrs.len() as int))
    via spec_run_ok_decreases
{
    if pc < 0 || pc >= instrs.len() || visited.contains(pc) {
        true
    } else {
        let v2 = visited.insert(pc);
        match instrs[pc] {
            Instruction::ACC(a) => isize::MIN <= sum + a <= isize::MAX && spec_run_ok(
                instrs,
                pc + 1,
                sum + a,
                v2,
            ),
            Instruction::JMP(a) => 0 <= pc + a <= usize::MAX && spec_run_ok(
                instrs,
                pc + a,
                sum,
                v2,
            ),
            Instruction::NOP(_) => spec_run_ok(instrs, pc + 1, sum, v2),
        }
    }
}

#[via_fn]
proof fn spec_run_ok_decreases(instrs: Seq<Instruction>, pc: int, sum: int, visited: Set<int>) {
    broadcast use vstd::set::axiom_set_insert_len;

    if !(pc < 0 || pc >= instrs.len() || visited.contains(pc)) {
        lemma_int_range(0, instrs.len() as int);
        lemma_len_subset(visited.insert(pc), set_int_range(0, instrs.len() as int));
    }
}

/// Runs the program from the start until an instruction would run a second
/// time or the counter leaves the code, and returns the counter and the
/// accumulator at that point.
pub fn get_state_on_loop(instructions: &[Instruction]) -> (r: (usize, isize))
    requires
        instructions@.len() < usize::MAX,
        spec_run_ok(instructions@, 0, 0, Set::empty()),
    ensures
        (r.0 as int, r.1 as int) == spec_run(instructions@, 0, 0, Set::empty()),
{
    let n = instructions.len();
    let mut visited: Vec<bool> = vec![false; n];
    let ghost mut vset: Set<int> = Set::empty();
    let mut pc: usize = 0;
    let mut sum: isize = 0;
    proof {
        assert(vset.subset_of(set_int_range(0, n as int)));
    }
    loop
        invariant
            n == instructions@.len(),
            n < usize::MAX,
            visited@.len() == n,
            vset.finite(),
            vset.subset_of(set_int_range(0, n as int)),
            forall|j: int| 0 <= j < n ==> vset.contains(j) == visited@[j],
            spec_run(instructions@, 0, 0, Set::empty()) == spec_run(
                instructions@,
                pc as int,
                sum as int,
                vset,
            ),
            spec_run_ok(instructions@, pc as int, sum as int, vset),
        decreases instructions@.len() - vset.len(),
    {
        if pc >= n {
            return (pc, sum);
        }
        if visited[pc] {
            return (pc, sum);
        }
        visited[pc] = true;
        proof {
            broadcast use vstd::set::axiom_set_insert_len;

            lemma_int_range(0, n as int);
            vset = vset.insert(pc as int);
            lemma_len_subset(vset, set_int_range(0, n as int));
        }
        match instructions[pc] {
            Instruction::ACC(a) => {
                sum = sum + a;
                pc = pc + 1;
            },
            Instruction::JMP(a) => {
                let np = (pc as i128) + (a as i128);
                pc = np as usize;
            },
            Instruction::NOP(_) => {
                pc = pc + 1;
            },
        }
    }
}

/// The repaired instruction: a no-op becomes the jump it hides and a jump
/// the no-op, while an accumulate is never corrupted.
pub open spec fn flip_instr(i: Instruction) -> Option<Instruction> {
    match i {
        Instruction::NOP(x) => Some(Instruction::JMP(x)),
        Instruction::JMP(x) => Some(Instruction::NOP(x)),
        Instruction::ACC(_) => None,
    }
}

/// The accumulator of the first single-instruction repair, in position
/// order, that makes the program run off the end of its code.
pub open spec fn spec_bug_free_from(instrs: Seq<Instruction>, count: int) -> Option<int>
    decreases instrs.len() - count,
    when 0 <= count
{
    if count >= instrs.len() {
        None
    } else {
        match flip_instr(instrs[count]) {
            None => spec_bug_free_from(instrs, count + 1),
            Some(fi) => {
                let res = spec_run(instrs.update(count, fi), 0, 0, Set::empty());
                if res.0 == instrs.len() {
                    Some(res.1)
                } else {
                    spec_bug_free_from(instrs, count + 1)
                }
            },
        }
    }
}

/// Tries repairing each instruction in turn and returns the accumulator of
/// the first repair under which the program runs off the end of its code.
/// The program is restored after every try.
pub fn get_bug_free_result(instructions: &mut Vec<Instruction>) -> (r: Option<isize>)
    requires
        old(instructions)@.len() < usize::MAX,
        forall|k: int|
            0 <= k < old(instructions)@.len() && flip_instr(#[trigger] old(instructions)@[k])
                is Some ==> spec_run_ok(
                old(instructions)@.update(k, flip_instr(old(instructions)@[k])->Some_0),
                0,
                0,
                Set::empty(),
            ),
    ensures
        final(instructions)@ == old(instructions)@,
        match spec_bug_free_from(old(instructions)@, 0) {
            None => r is None,
            Some(v) => r matches Some(s) && s as int == v,
        },
{
    let ghost orig = old(instructions)@;
    let n = instructions.len();
    let mut count: usize = 0;
    while count < n
        invariant
            orig == old(instructions)@,
            n == orig.len(),
            n < usize::MAX,
            instructions@ == orig,
            count <= n,
            forall|k: int|
                0 <= k < orig.len() && flip_instr(#[trigger] orig[k]) is Some ==> spec_run_ok(
                    orig.update(k, flip_instr(orig[k])->Some_0),
                    0,
                    0,
                    Set::empty(),
                ),
            spec_bug_free_from(orig, 0) == spec_bug_free_from(orig, count as int),
        decreases n - count,
    {
        let cur = instructions[count];
        let replacement = match cur {
            Instruction::NOP(x) => Some(Instruction::JMP(x)),
            Instruction::JMP(x) => Some(Instruction::NOP(x)),
            Instruction::ACC(_) => None,
        };
        if let Some(rep) = replacement {
            instructions[count] = rep;
            proof {
                assert(instructions@ =~= orig.update(count as int, rep));
                assert(rep == flip_instr(orig[count as int])->Some_0);
            }
            let result = get_state_on_loop(instructions.as_slice());
            instructions[count] = cur;
            proof {
                assert(instructions@ =~= orig);
            }
            if result.0 == n {
                proof {
                    assert(spec_bug_free_from(orig, count as int) == Some(
                        spec_run(orig.update(count as int, rep), 0, 0, Set::empty()).1,
                    ));
                }
                return Some(result.1);
            }
            proof {
                assert(spec_bug_free_from(orig, count as int) == spec_bug_free_from(
                    orig,
                    count as int + 1,
                ));
            }
        }
        count = count + 1;
    }
    None
}

} // verus!
