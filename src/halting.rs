//! The values of register 0 that make a machine program halt.

use vstd::prelude::*;

use crate::device18::{is_halted, step, step_of, well_formed, Instr};

verus! {

broadcast use vstd::std_specs::hash::group_hash_axioms;

/// Address of the check that ends the program when register 0 equals register 5.
pub const EXIT_CHECK: usize = 28;

/// Address of the inner loop that divides register 3 by 256 into register 1.
pub const DIVISION_LOOP: usize = 17;

/// Address at which the program goes on after the inner loop, less one.
pub const AFTER_DIVISION: usize = 26;

/// Address to which the program jumps back (less one) when the exit check fails.
pub const OUTER_LOOP: usize = 6;

/// The last address of the program.
pub const LAST_ADDRESS: usize = 30;

/// The inner loop at `DIVISION_LOOP` in one move: register 1 takes register 3
/// divided by 256 and control goes on after the loop.
pub open spec fn skip_division(ip: usize, r: Seq<usize>) -> Seq<usize> {
    r.update(1, r[3] / 256).update(ip as int, AFTER_DIVISION)
}

/// One cycle of the program with the inner loop done in one move.
pub open spec fn fast_step(ip: usize, prog: Seq<Instr>, r: Seq<usize>) -> Seq<usize> {
    if r[ip as int] == DIVISION_LOOP {
        skip_division(ip, r)
    } else {
        step_of(ip, prog, r)
    }
}

/// Register 5 when control first reaches `EXIT_CHECK` from `r` within `n`
/// cycles; `None` where it does not, or where control leaves the program first.
pub open spec fn first_exit_value(ip: usize, prog: Seq<Instr>, r: Seq<usize>, n: nat) -> Option<usize>
    decreases n,
{
    if r[ip as int] == EXIT_CHECK {
        Some(r[5])
    } else if n == 0 || r[ip as int] > LAST_ADDRESS || is_halted(ip, prog, r) {
        None
    } else {
        first_exit_value(ip, prog, fast_step(ip, prog, r), (n - 1) as nat)
    }
}

/// The search for the value of register 0 that halts the program after the
/// most instructions. From `r`, with `count` instructions counted so far, the
/// values of register 5 met at `EXIT_CHECK` so far in `seen` and the newest of
/// them in `last`: the newest value met before the count passes `limit`.
/// The exit check always fails and jumps back; the inner loop counts for
/// `6 + 7 * q` instructions, where `q` is the quotient it computes.
pub open spec fn newest_exit_value(
    ip: usize,
    prog: Seq<Instr>,
    r: Seq<usize>,
    count: nat,
    seen: Set<usize>,
    last: Option<usize>,
    limit: nat,
) -> Option<usize>
    decreases (if count <= limit {
        limit + 1 - count
    } else {
        0
    }),
{
    if count > limit {
        last
    } else if r[ip as int] == EXIT_CHECK {
        let v = r[5];
        let r2 = r.update(ip as int, OUTER_LOOP);
        if seen.contains(v) {
            newest_exit_value(ip, prog, r2, count + 3, seen, last, limit)
        } else {
            newest_exit_value(ip, prog, r2, count + 3, seen.insert(v), Some(v), limit)
        }
    } else if r[ip as int] == DIVISION_LOOP {
        let q = r[3] / 256;
        newest_exit_value(ip, prog, skip_division(ip, r), (count + 6 + 7 * q) as nat, seen, last, limit)
    } else if r[ip as int] > LAST_ADDRESS || is_halted(ip, prog, r) {
        None
    } else {
        newest_exit_value(ip, prog, step_of(ip, prog, r), count + 1, seen, last, limit)
    }
}

/// The smallest value of register 0 that makes the program halt: the value
/// of register 5 when control first reaches the exit check, from all-zero
/// registers; `None` where that does not happen within `max_steps` cycles.
pub fn part1(program: &(usize, Vec<Instr>), max_steps: usize) -> (r: Option<usize>)
    requires
        well_formed(program.0, program.1@),
    ensures
        r == first_exit_value(program.0, program.1@, seq![0usize, 0, 0, 0, 0, 0], max_steps as nat),
{
    let (ip, instructions) = (program.0, &program.1);
    let mut registers: [usize; 6] = [0; 6];
    assert(registers@ =~= seq![0usize, 0, 0, 0, 0, 0]);
    let ghost start = registers@;
    let mut n: usize = max_steps;
    loop
        invariant
            ip == program.0,
            instructions@ == program.1@,
            start == seq![0usize, 0, 0, 0, 0, 0],
            well_formed(ip, instructions@),
            first_exit_value(ip, instructions@, start, max_steps as nat) == first_exit_value(
                ip,
                instructions@,
                registers@,
                n as nat,
            ),
        decreases n,
    {
        let a = registers[ip];
        if a == EXIT_CHECK {
            return Some(registers[5]);
        }
        if n == 0 || a > LAST_ADDRESS || a >= instructions.len() {
            return None;
        }
        if a == DIVISION_LOOP {
            registers[1] = registers[3] / 256;
            registers[ip] = AFTER_DIVISION;
        } else {
            step(ip, instructions, &mut registers);
        }
        n = n - 1;
    }
}

/// The value of register 0 that makes the program halt after the most
/// instructions: the values of register 5 at the exit check repeat after a
/// while, and the last new one before `limit` instructions have been counted
/// is returned. `None` where no value was met, or where control leaves the
/// program.
pub fn part2(program: &(usize, Vec<Instr>), limit: u64) -> (r: Option<usize>)
    requires
        well_formed(program.0, program.1@),
        limit <= 0x4000_0000_0000_0000u64,
    ensures
        r == newest_exit_value(
            program.0,
            program.1@,
            seq![0usize, 0, 0, 0, 0, 0],
            0,
            Set::empty(),
            None,
            limit as nat,
        ),
{
    let (ip, instructions) = (program.0, &program.1);
    let mut registers: [usize; 6] = [0; 6];
    assert(registers@ =~= seq![0usize, 0, 0, 0, 0, 0]);
    let ghost start = registers@;
    let mut seen: std::collections::HashSet<usize> = std::collections::HashSet::new();
    let mut last: Option<usize> = None;
    let mut count: u64 = 0;
    while count <= limit
        invariant
            ip == program.0,
            instructions@ == program.1@,
            start == seq![0usize, 0, 0, 0, 0, 0],
            well_formed(ip, instructions@),
            limit <= 0x4000_0000_0000_0000u64,
            newest_exit_value(ip, instructions@, start, 0, Set::empty(), None, limit as nat)
                == newest_exit_value(ip, instructions@, registers@, count as nat, seen@, last, limit as nat),
        decreases (if count <= limit {
            limit + 1 - count
        } else {
            0
        }),
    {
        let a = registers[ip];
        if a == EXIT_CHECK {
            let v = registers[5];
            if !seen.contains(&v) {
                seen.insert(v);
                last = Some(v);
            }
            registers[ip] = OUTER_LOOP;
            count = count + 3;
        } else if a == DIVISION_LOOP {
            let q = registers[3] / 256;
            assert(q <= usize::MAX / 256);
            assert(usize::MAX <= u64::MAX);
            registers[1] = q;
            registers[ip] = AFTER_DIVISION;
            count = count + 6 + 7 * (q as u64);
        } else if a > LAST_ADDRESS || a >= instructions.len() {
            return None;
        } else {
            step(ip, instructions, &mut registers);
            count = count + 1;
        }
    }
    last
}

} // verus!
