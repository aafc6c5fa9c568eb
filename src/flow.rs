//! Running a machine program to its end, and the divisor sum that its main
//! loop computes.

use vstd::prelude::*;

use crate::device18::{is_halted, run, run_of, run_to, run_until_address, well_formed, Instr};

verus! {

/// The sum of the divisors of `n` that lie in `1..=k`.
pub open spec fn divisor_sum_upto(n: nat, k: nat) -> nat
    decreases k,
{
    if k == 0 {
        0
    } else {
        divisor_sum_upto(n, (k - 1) as nat) + if n % k == 0 {
            k
        } else {
            0
        }
    }
}

/// The sum of all divisors of `n`.
pub open spec fn divisor_sum_of(n: nat) -> nat {
    divisor_sum_upto(n, n)
}

proof fn lemma_divisor_sum_grows(n: nat, j: nat, k: nat)
    requires
        j <= k,
    ensures
        divisor_sum_upto(n, j) <= divisor_sum_upto(n, k),
    decreases k - j,
{
    if j < k {
        lemma_divisor_sum_grows(n, j, (k - 1) as nat);
    }
}

/// The sum of the divisors of `n`, where it fits a `usize`.
pub fn divisor_sum(n: usize) -> (r: Option<usize>)
    ensures
        r == (if divisor_sum_of(n as nat) <= usize::MAX {
            Some(divisor_sum_of(n as nat) as usize)
        } else {
            None
        }),
{
    let mut acc: usize = 0;
    let mut x: usize = 0;
    while x < n
        invariant
            x <= n,
            acc == divisor_sum_upto(n as nat, x as nat),
        decreases n - x,
    {
        x = x + 1;
        if n % x == 0 {
            match acc.checked_add(x) {
                None => {
                    proof {
                        lemma_divisor_sum_grows(n as nat, x as nat, n as nat);
                    }
                    return None;
                },
                Some(v) => {
                    acc = v;
                },
            }
        }
    }
    Some(acc)
}

/// Runs the program from all-zero registers until it halts and returns
/// register 0; `None` where it has not halted after `max_steps` cycles.
pub fn part1(program: &(usize, Vec<Instr>), max_steps: usize) -> (r: Option<usize>)
    requires
        well_formed(program.0, program.1@),
    ensures
        ({
            let end = run_of(program.0, program.1@, seq![0usize, 0, 0, 0, 0, 0], max_steps as nat);
            r == if is_halted(program.0, program.1@, end) {
                Some(end[0])
            } else {
                None
            }
        }),
{
    let (ip, instructions) = (program.0, &program.1);
    let mut registers: [usize; 6] = [0; 6];
    assert(registers@ =~= seq![0usize, 0, 0, 0, 0, 0]);
    run(ip, instructions, &mut registers, max_steps);
    if registers[ip] < instructions.len() {
        None
    } else {
        Some(registers[0])
    }
}

/// Runs the program from registers that are zero but for register 0, which
/// is 1, until control reaches address 1, where the set-up of the program's
/// main loop is done; the loop then adds every divisor of register 5 to
/// register 0, and that sum is returned without running it. `None` where
/// address 1 is not reached within `max_steps` cycles (or the machine halts
/// first), or where the sum does not fit a `usize`.
pub fn part2(program: &(usize, Vec<Instr>), max_steps: usize) -> (r: Option<usize>)
    requires
        well_formed(program.0, program.1@),
    ensures
        ({
            let end = run_to(program.0, program.1@, seq![1usize, 0, 0, 0, 0, 0], 1, max_steps as nat);
            r == if end[program.0 as int] == 1 && end[0] + divisor_sum_of(end[5] as nat) <= usize::MAX {
                Some((end[0] + divisor_sum_of(end[5] as nat)) as usize)
            } else {
                None
            }
        }),
{
    let (ip, instructions) = (program.0, &program.1);
    let mut registers: [usize; 6] = [1, 0, 0, 0, 0, 0];
    assert(registers@ =~= seq![1usize, 0, 0, 0, 0, 0]);
    run_until_address(ip, instructions, &mut registers, 1, max_steps);
    if registers[ip] != 1 {
        return None;
    }
    match divisor_sum(registers[5]) {
        None => None,
        Some(d) => registers[0].checked_add(d),
    }
}

} // verus!
