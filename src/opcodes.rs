//! Working out which opcode number stands for which operation from samples
//! of registers before and after an instruction.

use vstd::prelude::*;

use crate::device18::{Instr, Op};
use crate::parse::{
    chars_of, copy_range, digit_value, is_digit, line_ranges, lines, number_of, parse_number, pieces,
    ranges_within, word_ranges, words,
};

verus! {

/// An instruction as the samples write it: an opcode number and three operands.
#[derive(Clone, Copy, Debug, PartialEq, Eq, Structural)]
pub struct CodedInstr {
    pub opcode: usize,
    pub a: usize,
    pub b: usize,
    pub c: usize,
}

/// One sample: the four registers before and after an instruction ran.
#[derive(Clone, Copy, Debug)]
pub struct Example {
    pub before: [usize; 4],
    pub after: [usize; 4],
    pub instr: CodedInstr,
}

impl View for Example {
    type V = (Seq<usize>, CodedInstr, Seq<usize>);

    open spec fn view(&self) -> Self::V {
        (self.before@, self.instr, self.after@)
    }
}

/// The sixteen operations, in a fixed order.
pub open spec fn all_ops() -> Seq<Op> {
    seq![Op::Addr, Op::Addi, Op::Mulr, Op::Muli, Op::Banr, Op::Bani, Op::Borr, Op::Bori, Op::Setr, Op::Seti, Op::Gtir, Op::Gtri, Op::Gtrr, Op::Eqir, Op::Eqri, Op::Eqrr]
}

/// The instruction that performs `op` with the operands of `ci`.
pub open spec fn with_op(op: Op, ci: CodedInstr) -> Instr {
    Instr { op, a: ci.a, b: ci.b, c: ci.c }
}

/// Whether `op`, run on the sample's operands and registers, gives the
/// registers that the sample shows after the instruction.
pub open spec fn op_matches(op: Op, e: (Seq<usize>, CodedInstr, Seq<usize>)) -> bool {
    &&& with_op(op, e.1).fits(4)
    &&& with_op(op, e.1).spec_apply(e.0) == e.2
}

/// How many of the first `k` operations of `all_ops()` match the sample.
pub open spec fn matching_count(e: (Seq<usize>, CodedInstr, Seq<usize>), k: nat) -> nat
    decreases k,
{
    if k == 0 {
        0
    } else {
        matching_count(e, (k - 1) as nat) + if op_matches(all_ops()[k - 1], e) {
            1nat
        } else {
            0
        }
    }
}

/// How many samples of `es` match at least three operations.
pub open spec fn ambiguous_count(es: Seq<(Seq<usize>, CodedInstr, Seq<usize>)>) -> nat
    decreases es.len(),
{
    if es.len() == 0 {
        0
    } else {
        ambiguous_count(es.drop_last()) + if matching_count(es.last(), 16) >= 3 {
            1nat
        } else {
            0
        }
    }
}

/// The sixteen operations, in the order of `all_ops()`.
pub fn op_list() -> (r: [Op; 16])
    ensures
        r@ == all_ops(),
{
    let r = [Op::Addr, Op::Addi, Op::Mulr, Op::Muli, Op::Banr, Op::Bani, Op::Borr, Op::Bori, Op::Setr, Op::Seti, Op::Gtir, Op::Gtri, Op::Gtrr, Op::Eqir, Op::Eqri, Op::Eqrr];
    assert(r@ =~= all_ops());
    r
}

/// The registers after running `op` with the operands of `instr` on `register`.
pub fn apply_op(op: &Op, register: [usize; 4], instr: CodedInstr) -> (r: [usize; 4])
    requires
        with_op(*op, instr).fits(4),
    ensures
        r@ == with_op(*op, instr).spec_apply(register@),
{
    let ins = Instr { op: *op, a: instr.a, b: instr.b, c: instr.c };
    let mut out = register;
    let v = ins.value(&out);
    out[instr.c] = v;
    out
}

/// Whether `op` explains the sample.
pub fn check_op_match(op: &Op, example: &Example) -> (r: bool)
    ensures
        r == op_matches(*op, example@),
{
    let ins = Instr { op: *op, a: example.instr.a, b: example.instr.b, c: example.instr.c };
    if !ins.fits_registers(4) {
        return false;
    }
    let got = apply_op(op, example.before, example.instr);
    let same = got[0] == example.after[0] && got[1] == example.after[1] && got[2] == example.after[2]
        && got[3] == example.after[3];
    assert(same <==> got@ =~= example.after@);
    same
}

/// How many of the sixteen operations explain the sample.
pub fn count_matching_ops(example: &Example) -> (r: usize)
    ensures
        r == matching_count(example@, 16),
{
    let ops = op_list();
    let mut n: usize = 0;
    let mut k: usize = 0;
    while k < 16
        invariant
            ops@ == all_ops(),
            k <= 16,
            n == matching_count(example@, k as nat),
            n <= k,
        decreases 16 - k,
    {
        if check_op_match(&ops[k], example) {
            n = n + 1;
        }
        k = k + 1;
    }
    n
}

/// How many samples at least three operations explain.
pub fn part1(input: &(Vec<Example>, Vec<CodedInstr>)) -> (r: usize)
    ensures
        r == ambiguous_count(input.0@.map_values(|e: Example| e@)),
{
    let examples = &input.0;
    let mut n: usize = 0;
    let mut i: usize = 0;
    while i < examples.len()
        invariant
            i <= examples@.len(),
            n <= i,
            n == ambiguous_count(examples@.take(i as int).map_values(|e: Example| e@)),
        decreases examples@.len() - i,
    {
        assert(examples@.take(i + 1).map_values(|e: Example| e@).drop_last() =~= examples@.take(
            i as int,
        ).map_values(|e: Example| e@));
        if count_matching_ops(&examples[i]) >= 3 {
            n = n + 1;
        }
        i = i + 1;
    }
    assert(examples@.take(i as int) =~= examples@);
    n
}

/// `m` gives each of the sixteen opcodes an operation, no operation twice.
pub open spec fn is_assignment(m: Seq<Op>) -> bool {
    &&& m.len() == 16
    &&& forall|i: int, j: int| 0 <= i < 16 && 0 <= j < 16 && i != j ==> m[i] != m[j]
}

/// Every sample has an opcode below 16 and is explained by the operation that
/// `m` gives that opcode.
pub open spec fn consistent(m: Seq<Op>, es: Seq<(Seq<usize>, CodedInstr, Seq<usize>)>) -> bool {
    forall|i: int|
        0 <= i < es.len() ==> (#[trigger] es[i]).1.opcode < 16 && op_matches(m[es[i].1.opcode as int], es[i])
}

/// Operation `k` of `all_ops()` explains every sample of `es` with opcode `c`.
pub open spec fn fits_samples(es: Seq<(Seq<usize>, CodedInstr, Seq<usize>)>, c: int, k: int) -> bool {
    forall|i: int| 0 <= i < es.len() && (#[trigger] es[i]).1.opcode == c ==> op_matches(all_ops()[k], es[i])
}

/// What remains possible: `cand[16 * c + k]` says whether operation `k` may
/// still be the one of opcode `c`.
pub open spec fn candidates_sound(cand: Seq<bool>, es: Seq<(Seq<usize>, CodedInstr, Seq<usize>)>) -> bool {
    &&& cand.len() == 256
    &&& forall|c: int, k: int| 0 <= c < 16 && 0 <= k < 16 && #[trigger] cand[16 * c + k] ==> fits_samples(es, c, k)
}

/// Operation `k` is the only one left for opcode `c`.
pub open spec fn only_candidate(cand: Seq<bool>, c: int, k: int) -> bool {
    &&& 0 <= k < 16
    &&& cand[16 * c + k]
    &&& forall|j: int| 0 <= j < 16 && j != k ==> !#[trigger] cand[16 * c + j]
}

/// Opcode `c` has exactly one operation left.
pub open spec fn has_only(cand: Seq<bool>, c: int) -> bool {
    exists|k: int| #[trigger] only_candidate(cand, c, k)
}

/// The operation left for opcode `c`, where there is exactly one.
pub open spec fn the_only(cand: Seq<bool>, c: int) -> int {
    choose|k: int| #[trigger] only_candidate(cand, c, k)
}

/// The candidates once operation `k` is taken from every opcode but `c`.
pub open spec fn take_from_others(cand: Seq<bool>, c: int, k: int) -> Seq<bool> {
    Seq::new(256, |idx: int| if idx % 16 == k && idx / 16 != c { false } else { cand[idx] })
}

/// One pass over the opcodes `0..c` in order: an opcode with one operation
/// left takes it from all other opcodes.
pub open spec fn sweep(cand: Seq<bool>, c: nat) -> Seq<bool>
    decreases c,
{
    if c == 0 {
        cand
    } else {
        let p = sweep(cand, (c - 1) as nat);
        if has_only(p, c - 1) {
            take_from_others(p, c - 1, the_only(p, c - 1))
        } else {
            p
        }
    }
}

/// `n` passes over all sixteen opcodes.
pub open spec fn sweeps(cand: Seq<bool>, n: nat) -> Seq<bool>
    decreases n,
{
    if n == 0 {
        cand
    } else {
        sweep(sweeps(cand, (n - 1) as nat), 16)
    }
}

/// The candidates that the samples leave: operation `k` for opcode `c` where
/// it explains every sample with that opcode.
pub open spec fn start_candidates(es: Seq<(Seq<usize>, CodedInstr, Seq<usize>)>) -> Seq<bool> {
    Seq::new(256, |idx: int| fits_samples(es, idx / 16, idx % 16))
}

/// The assignment that the candidates give: where every opcode has one
/// operation left and no two the same.
pub open spec fn assignment_of(cand: Seq<bool>) -> Option<Seq<Op>> {
    if forall|c: int| 0 <= c < 16 ==> #[trigger] has_only(cand, c) {
        let m = Seq::new(16, |c: int| all_ops()[the_only(cand, c)]);
        if is_assignment(m) {
            Some(m)
        } else {
            None
        }
    } else {
        None
    }
}

/// What working out the opcodes from the samples gives: sixteen passes of
/// elimination over the candidates that the samples leave; nothing where a
/// sample has an opcode of 16 or more.
pub open spec fn resolution(es: Seq<(Seq<usize>, CodedInstr, Seq<usize>)>) -> Option<Seq<Op>> {
    if forall|j: int| 0 <= j < es.len() ==> (#[trigger] es[j]).1.opcode < 16 {
        assignment_of(sweeps(start_candidates(es), 16))
    } else {
        None
    }
}

/// The one operation that is still possible for opcode `c`, if exactly one is.
fn single_candidate(cand: &Vec<bool>, c: usize) -> (r: Option<usize>)
    requires
        cand@.len() == 256,
        c < 16,
    ensures
        r matches Some(k) ==> only_candidate(cand@, c as int, k as int),
        r is None ==> !has_only(cand@, c as int),
{
    let mut found: Option<usize> = None;
    let mut k: usize = 0;
    while k < 16
        invariant
            cand@.len() == 256,
            c < 16,
            k <= 16,
            found matches Some(f) ==> f < k && cand@[16 * c + f] && forall|j: int|
                0 <= j < k && j != f ==> !#[trigger] cand@[16 * c + j],
            found is None ==> forall|j: int| 0 <= j < k ==> !#[trigger] cand@[16 * c + j],
        decreases 16 - k,
    {
        if cand[16 * c + k] {
            if found.is_some() {
                return None;
            }
            found = Some(k);
        }
        k = k + 1;
    }
    found
}

/// Only one operation can be left for an opcode.
proof fn lemma_only_unique(cand: Seq<bool>, c: int, k: int)
    requires
        only_candidate(cand, c, k),
    ensures
        has_only(cand, c),
        the_only(cand, c) == k,
{
    let j = the_only(cand, c);
    assert(only_candidate(cand, c, j));
    if j != k {
        assert(!cand[16 * c + j]);
    }
}

/// Finds the operation of each opcode: an operation stays possible for an
/// opcode while every sample with that opcode matches it; then, sixteen
/// times over, each opcode in turn that has one operation left takes it from
/// all others. `None` where a sample has an opcode of 16 or more, or where
/// this does not leave exactly one operation for every opcode, each a
/// different one.
pub fn resolve_opcodes(examples: &Vec<Example>) -> (r: Option<[Op; 16]>)
    ensures
        match resolution(examples@.map_values(|e: Example| e@)) {
            Some(m) => r matches Some(a) && a@ == m,
            None => r is None,
        },
        r matches Some(m) ==> is_assignment(m@) && consistent(m@, examples@.map_values(|e: Example| e@)),
{
    let ghost es = examples@.map_values(|e: Example| e@);
    let ops = op_list();
    let mut cand: Vec<bool> = Vec::new();
    while cand.len() < 256
        invariant
            cand@.len() <= 256,
            forall|j: int| 0 <= j < cand@.len() ==> #[trigger] cand@[j],
        decreases 256 - cand@.len(),
    {
        cand.push(true);
    }
    let mut i: usize = 0;
    while i < examples.len()
        invariant
            ops@ == all_ops(),
            es == examples@.map_values(|e: Example| e@),
            i <= examples@.len(),
            cand@.len() == 256,
            forall|j: int| 0 <= j < i ==> (#[trigger] es[j]).1.opcode < 16,
            forall|c: int, k: int|
                0 <= c < 16 && 0 <= k < 16 ==> (#[trigger] cand@[16 * c + k] <==> forall|j: int|
                    0 <= j < i && (#[trigger] es[j]).1.opcode == c ==> op_matches(all_ops()[k], es[j])),
        decreases examples@.len() - i,
    {
        let ex = &examples[i];
        let c = ex.instr.opcode;
        if c >= 16 {
            assert(!(es[i as int].1.opcode < 16));
            return None;
        }
        let ghost before = cand@;
        let mut k: usize = 0;
        while k < 16
            invariant
                ops@ == all_ops(),
                es == examples@.map_values(|e: Example| e@),
                i < examples@.len(),
                *ex == examples@[i as int],
                c == ex.instr.opcode,
                c < 16,
                k <= 16,
                cand@.len() == 256,
                before.len() == 256,
                forall|c2: int, k2: int|
                    0 <= c2 < 16 && 0 <= k2 < 16 ==> #[trigger] cand@[16 * c2 + k2] == if c2 == c && k2 < k {
                        before[16 * c2 + k2] && op_matches(all_ops()[k2], es[i as int])
                    } else {
                        before[16 * c2 + k2]
                    },
            decreases 16 - k,
        {
            if !check_op_match(&ops[k], ex) {
                cand.set(16 * c + k, false);
            }
            k = k + 1;
        }
        assert forall|c2: int, k2: int| 0 <= c2 < 16 && 0 <= k2 < 16 implies (#[trigger] cand@[16 * c2 + k2]
            <==> forall|j: int| 0 <= j < i + 1 && (#[trigger] es[j]).1.opcode == c2 ==> op_matches(all_ops()[k2], es[j])) by {
            assert(before[16 * c2 + k2] == cand@[16 * c2 + k2] || c2 == c);
        }
        i = i + 1;
    }
    assert(cand@ =~= start_candidates(es)) by {
        assert forall|idx: int| 0 <= idx < 256 implies cand@[idx] == start_candidates(es)[idx] by {
            let (c2, k2) = (idx / 16, idx % 16);
            assert(idx == 16 * c2 + k2);
        }
    }
    assert(candidates_sound(cand@, es));
    let ghost start = cand@;
    assert(resolution(es) == assignment_of(sweeps(start, 16)));
    let mut round: usize = 0;
    while round < 16
        invariant
            es == examples@.map_values(|e: Example| e@),
            resolution(es) == assignment_of(sweeps(start, 16)),
            candidates_sound(cand@, es),
            round <= 16,
            cand@ == sweeps(start, round as nat),
        decreases 16 - round,
    {
        let ghost round_start = cand@;
        let mut c: usize = 0;
        while c < 16
            invariant
                es == examples@.map_values(|e: Example| e@),
                resolution(es) == assignment_of(sweeps(start, 16)),
                candidates_sound(cand@, es),
                c <= 16,
                cand@ == sweep(round_start, c as nat),
            decreases 16 - c,
        {
            match single_candidate(&cand, c) {
                None => {},
                Some(k) => {
                    proof {
                        lemma_only_unique(cand@, c as int, k as int);
                    }
                    let ghost orig = cand@;
                    let mut c2: usize = 0;
                    while c2 < 16
                        invariant
                            es == examples@.map_values(|e: Example| e@),
                            candidates_sound(cand@, es),
                            c2 <= 16,
                            k < 16,
                            c < 16,
                            orig.len() == 256,
                            cand@.len() == 256,
                            forall|idx: int|
                                0 <= idx < 256 ==> #[trigger] cand@[idx] == if idx % 16 == k && idx / 16 != c && idx / 16
                                    < c2 {
                                    false
                                } else {
                                    orig[idx]
                                },
                        decreases 16 - c2,
                    {
                        if c2 != c {
                            cand.set(16 * c2 + k, false);
                        }
                        c2 = c2 + 1;
                    }
                    assert(cand@ =~= take_from_others(orig, c as int, k as int));
                },
            }
            c = c + 1;
        }
        round = round + 1;
    }
    let ghost fin = cand@;
    assert(fin == sweeps(start, 16));
    let mut m: [Op; 16] = ops;
    let ghost mut ks: Seq<int> = Seq::new(16, |j: int| 0);
    let mut c: usize = 0;
    while c < 16
        invariant
            es == examples@.map_values(|e: Example| e@),
            resolution(es) == assignment_of(fin),
            candidates_sound(cand@, es),
            cand@ == fin,
            ops@ == all_ops(),
            c <= 16,
            ks.len() == 16,
            forall|j: int|
                0 <= j < c ==> 0 <= #[trigger] ks[j] < 16 && cand@[16 * j + ks[j]] && m@[j] == all_ops()[ks[j]]
                    && has_only(fin, j) && the_only(fin, j) == ks[j],
        decreases 16 - c,
    {
        match single_candidate(&cand, c) {
            None => {
                assert(!(forall|c3: int| 0 <= c3 < 16 ==> #[trigger] has_only(fin, c3)));
                return None;
            },
            Some(k) => {
                proof {
                    lemma_only_unique(cand@, c as int, k as int);
                }
                m[c] = ops[k];
                proof {
                    ks = ks.update(c as int, k as int);
                }
            },
        }
        c = c + 1;
    }
    assert forall|j: int| 0 <= j < 16 implies m@[j] == all_ops()[the_only(fin, j)] by {
        let kj = ks[j];
    }
    assert(m@ =~= Seq::new(16, |c3: int| all_ops()[the_only(fin, c3)]));
    assert(forall|c3: int| 0 <= c3 < 16 ==> #[trigger] has_only(fin, c3)) by {
        assert forall|c3: int| 0 <= c3 < 16 implies #[trigger] has_only(fin, c3) by {
            let kj = ks[c3];
        }
    }
    assert(resolution(es) == if is_assignment(m@) {
        Some(m@)
    } else {
        None
    });
    let mut x: usize = 0;
    while x < 16
        invariant
            es == examples@.map_values(|e: Example| e@),
            resolution(es) == (if is_assignment(m@) {
                Some(m@)
            } else {
                None
            }),
            ks.len() == 16,
            forall|j: int|
                0 <= j < 16 ==> 0 <= #[trigger] ks[j] < 16 && cand@[16 * j + ks[j]] && m@[j] == all_ops()[ks[j]],
            x <= 16,
            forall|i1: int, j1: int| 0 <= i1 < x && 0 <= j1 < 16 && i1 != j1 ==> m@[i1] != m@[j1],
        decreases 16 - x,
    {
        let mut y: usize = 0;
        while y < 16
            invariant
                es == examples@.map_values(|e: Example| e@),
                resolution(es) == (if is_assignment(m@) {
                    Some(m@)
                } else {
                    None
                }),
                x < 16,
                y <= 16,
                forall|i1: int, j1: int| 0 <= i1 < x && 0 <= j1 < 16 && i1 != j1 ==> m@[i1] != m@[j1],
                forall|j1: int| 0 <= j1 < y && j1 != x ==> m@[x as int] != m@[j1],
            decreases 16 - y,
        {
            if y != x && m[x] == m[y] {
                assert(!is_assignment(m@)) by {
                    assert(m@[x as int] == m@[y as int]);
                }
                return None;
            }
            y = y + 1;
        }
        x = x + 1;
    }
    assert forall|i: int| 0 <= i < es.len() implies (#[trigger] es[i]).1.opcode < 16 && op_matches(
        m@[es[i].1.opcode as int],
        es[i],
    ) by {
        let c = es[i].1.opcode as int;
        assert(0 <= ks[c] < 16);
        assert(fits_samples(es, c, ks[c]));
    }
    Some(m)
}

/// The four registers after running `prog` from all-zero registers, each
/// opcode standing for the operation that `m` gives it; `None` where an
/// opcode is 16 or more or an instruction names a register beyond the four.
pub open spec fn decoded_run(m: Seq<Op>, prog: Seq<CodedInstr>) -> Option<Seq<usize>>
    decreases prog.len(),
{
    if prog.len() == 0 {
        Some(seq![0usize, 0, 0, 0])
    } else {
        match decoded_run(m, prog.drop_last()) {
            None => None,
            Some(r) => {
                let ci = prog.last();
                if ci.opcode < 16 && with_op(m[ci.opcode as int], ci).fits(4) {
                    Some(with_op(m[ci.opcode as int], ci).spec_apply(r))
                } else {
                    None
                }
            },
        }
    }
}

/// Runs `program` from all-zero registers, opcode `i` standing for
/// `mapping[i]`, and returns register 0.
pub fn run_decoded(mapping: &[Op; 16], program: &Vec<CodedInstr>) -> (r: Option<usize>)
    ensures
        r == (match decoded_run(mapping@, program@) {
            Some(regs) => Some(regs[0]),
            None => None,
        }),
{
    let mut register: [usize; 4] = [0; 4];
    assert(register@ =~= seq![0usize, 0, 0, 0]);
    let mut i: usize = 0;
    while i < program.len()
        invariant
            i <= program@.len(),
            decoded_run(mapping@, program@.take(i as int)) == Some(register@),
        decreases program@.len() - i,
    {
        assert(program@.take(i + 1).drop_last() =~= program@.take(i as int));
        let ci = program[i];
        if ci.opcode >= 16 {
            proof {
                lemma_decoded_run_fails_on(mapping@, program@, (i + 1) as nat);
            }
            return None;
        }
        let op = mapping[ci.opcode];
        let ins = Instr { op, a: ci.a, b: ci.b, c: ci.c };
        if !ins.fits_registers(4) {
            proof {
                lemma_decoded_run_fails_on(mapping@, program@, (i + 1) as nat);
            }
            return None;
        }
        register = apply_op(&op, register, ci);
        i = i + 1;
    }
    assert(program@.take(i as int) =~= program@);
    Some(register[0])
}

/// Once a prefix of the program fails, so does the whole.
proof fn lemma_decoded_run_fails_on(m: Seq<Op>, prog: Seq<CodedInstr>, k: nat)
    requires
        k <= prog.len(),
        decoded_run(m, prog.take(k as int)) is None,
    ensures
        decoded_run(m, prog) is None,
    decreases prog.len() - k,
{
    if k < prog.len() {
        assert(prog.take(k + 1 as int).drop_last() =~= prog.take(k as int));
        lemma_decoded_run_fails_on(m, prog, (k + 1) as nat);
    } else {
        assert(prog.take(k as int) =~= prog);
    }
}

/// Works out the operation of each opcode from the samples, then runs the
/// program and returns register 0. Where it returns a value, that value comes
/// from an assignment of operations to opcodes that explains every sample.
pub fn part2(input: &(Vec<Example>, Vec<CodedInstr>)) -> (r: Option<usize>)
    ensures
        match resolution(input.0@.map_values(|e: Example| e@)) {
            Some(m) => r == (match decoded_run(m, input.1@) {
                Some(regs) => Some(regs[0]),
                None => None,
            }),
            None => r is None,
        },
        r matches Some(v) ==> exists|m: Seq<Op>|
            is_assignment(m) && consistent(m, input.0@.map_values(|e: Example| e@))
                && #[trigger] decoded_run(m, input.1@) is Some && decoded_run(m, input.1@)->Some_0[0] == v,
{
    match resolve_opcodes(&input.0) {
        None => None,
        Some(m) => run_decoded(&m, &input.1),
    }
}

/// A sample as its three lines give it: registers before, instruction,
/// registers after.
pub type SampleView = (Seq<usize>, CodedInstr, Seq<usize>);

/// The values of the decimal digits of `s`, in order; other characters are
/// passed over.
pub open spec fn digits_in(s: Seq<char>) -> Seq<usize>
    decreases s.len(),
{
    if s.len() == 0 {
        Seq::empty()
    } else {
        let d = digits_in(s.drop_last());
        if is_digit(s.last()) {
            d.push(digit_value(s.last()) as usize)
        } else {
            d
        }
    }
}

/// The instruction that a line of four numbers spells out, if it is one.
pub open spec fn coded_instr_of(l: Seq<char>) -> Option<CodedInstr> {
    let w = words(l);
    if w.len() == 4 {
        match (number_of(w[0]), number_of(w[1]), number_of(w[2]), number_of(w[3])) {
            (Some(opcode), Some(a), Some(b), Some(c)) => Some(CodedInstr { opcode, a, b, c }),
            _ => None,
        }
    } else {
        None
    }
}

/// Whether line `l` opens a sample: it starts with `Before:`.
pub open spec fn is_sample_start(l: Seq<char>) -> bool {
    l.len() >= 7 && l.take(7) == seq!['B', 'e', 'f', 'o', 'r', 'e', ':']
}

/// The sample that the lines `b`, `i`, `a` give: the first four digits of `b`,
/// the instruction of `i`, the first four digits of `a`.
pub open spec fn sample_of(b: Seq<char>, i: Seq<char>, a: Seq<char>) -> Option<SampleView> {
    match coded_instr_of(i) {
        Some(ci) => if digits_in(b).len() >= 4 && digits_in(a).len() >= 4 {
            Some((digits_in(b).take(4), ci, digits_in(a).take(4)))
        } else {
            None
        },
        None => None,
    }
}

/// The samples and the program that lines `i..` of `ls` hold. Lines without
/// words are passed over; a line that starts with `Before:` opens a sample of
/// three lines; any other line is an instruction of the program.
pub open spec fn manual_from(ls: Seq<Seq<char>>, i: nat) -> Option<(Seq<SampleView>, Seq<CodedInstr>)>
    decreases ls.len() - i,
{
    if i >= ls.len() {
        Some((Seq::empty(), Seq::empty()))
    } else if words(ls[i as int]).len() == 0 {
        manual_from(ls, i + 1)
    } else if is_sample_start(ls[i as int]) {
        if i + 2 < ls.len() {
            match (sample_of(ls[i as int], ls[i + 1 as int], ls[i + 2 as int]), manual_from(ls, i + 3)) {
                (Some(e), Some(rest)) => Some((seq![e] + rest.0, rest.1)),
                _ => None,
            }
        } else {
            None
        }
    } else {
        match (coded_instr_of(ls[i as int]), manual_from(ls, i + 1)) {
            (Some(ci), Some(rest)) => Some((rest.0, seq![ci] + rest.1)),
            _ => None,
        }
    }
}

/// `r` with the samples `es` and the instructions `ps` put in front.
pub open spec fn prepend(
    es: Seq<SampleView>,
    ps: Seq<CodedInstr>,
    r: Option<(Seq<SampleView>, Seq<CodedInstr>)>,
) -> Option<(Seq<SampleView>, Seq<CodedInstr>)> {
    match r {
        Some((e, p)) => Some((es + e, ps + p)),
        None => None,
    }
}

/// The first four digits of `s`, where it has four.
pub fn get_digits(s: &Vec<char>) -> (r: Option<[usize; 4]>)
    ensures
        match r {
            Some(v) => digits_in(s@).len() >= 4 && v@ == digits_in(s@).take(4),
            None => digits_in(s@).len() < 4,
        },
{
    let mut ds: Vec<usize> = Vec::new();
    let mut i: usize = 0;
    assert(s@.take(0) =~= Seq::<char>::empty());
    while i < s.len()
        invariant
            i <= s@.len(),
            ds@ == digits_in(s@.take(i as int)),
        decreases s@.len() - i,
    {
        assert(s@.take(i + 1).drop_last() =~= s@.take(i as int));
        let c = s[i];
        if '0' <= c && c <= '9' {
            ds.push((c as u32 - '0' as u32) as usize);
        }
        i = i + 1;
    }
    assert(s@.take(i as int) =~= s@);
    if ds.len() < 4 {
        return None;
    }
    let v: [usize; 4] = [ds[0], ds[1], ds[2], ds[3]];
    assert(v@ =~= ds@.take(4));
    Some(v)
}

/// Reads a line of four numbers as an instruction.
pub fn parse_coded_instr(l: &Vec<char>) -> (r: Option<CodedInstr>)
    ensures
        r == coded_instr_of(l@),
{
    let ws = word_ranges(l);
    if ws.len() != 4 {
        return None;
    }
    let ghost w = words(l@);
    assert(w[0] == l@.subrange(ws@[0].0 as int, ws@[0].1 as int));
    assert(w[1] == l@.subrange(ws@[1].0 as int, ws@[1].1 as int));
    assert(w[2] == l@.subrange(ws@[2].0 as int, ws@[2].1 as int));
    assert(w[3] == l@.subrange(ws@[3].0 as int, ws@[3].1 as int));
    let opcode = parse_number(l, ws[0].0, ws[0].1);
    let a = parse_number(l, ws[1].0, ws[1].1);
    let b = parse_number(l, ws[2].0, ws[2].1);
    let c = parse_number(l, ws[3].0, ws[3].1);
    match (opcode, a, b, c) {
        (Some(opcode), Some(a), Some(b), Some(c)) => Some(CodedInstr { opcode, a, b, c }),
        _ => None,
    }
}

/// Whether the line starts with `Before:`.
pub fn starts_sample(l: &Vec<char>) -> (r: bool)
    ensures
        r == is_sample_start(l@),
{
    if l.len() < 7 {
        return false;
    }
    let r = l[0] == 'B' && l[1] == 'e' && l[2] == 'f' && l[3] == 'o' && l[4] == 'r' && l[5] == 'e' && l[6] == ':';
    assert(r <==> l@.take(7) =~= seq!['B', 'e', 'f', 'o', 'r', 'e', ':']);
    r
}

/// Reads the sample whose lines are `b`, `i` and `a`.
pub fn parse_example(b: &Vec<char>, i: &Vec<char>, a: &Vec<char>) -> (r: Option<Example>)
    ensures
        match r {
            Some(e) => sample_of(b@, i@, a@) == Some(e@),
            None => sample_of(b@, i@, a@) is None,
        },
{
    let instr = parse_coded_instr(i);
    let before = get_digits(b);
    let after = get_digits(a);
    match (instr, before, after) {
        (Some(instr), Some(before), Some(after)) => Some(Example { before, after, instr }),
        _ => None,
    }
}

proof fn lemma_prepend_front(
    es: Seq<SampleView>,
    ps: Seq<CodedInstr>,
    e: Seq<SampleView>,
    p: Seq<CodedInstr>,
    r: Option<(Seq<SampleView>, Seq<CodedInstr>)>,
)
    ensures
        prepend(es, ps, prepend(e, p, r)) == prepend(es + e, ps + p, r),
{
    if let Some((x, y)) = r {
        assert(es + (e + x) =~= (es + e) + x);
        assert(ps + (p + y) =~= (ps + p) + y);
    }
}

/// Reads the samples and the program of the text: samples of three lines
/// (`Before: [..]`, an instruction, `After: [..]`), then the program, one
/// instruction of four numbers per line; lines without words are passed over.
pub fn parse_input(input: String) -> (r: Option<(Vec<Example>, Vec<CodedInstr>)>)
    ensures
        match manual_from(lines(input@), 0) {
            Some((es, ps)) => r is Some && r->Some_0.0@.map_values(|e: Example| e@) == es && r->Some_0.1@ == ps,
            None => r is None,
        },
{
    let cs = chars_of(input.as_str());
    let ls = line_ranges(&cs);
    let ghost lv = lines(input@);
    let mut examples: Vec<Example> = Vec::new();
    let mut program: Vec<CodedInstr> = Vec::new();
    let mut i: usize = 0;
    assert(examples@.map_values(|e: Example| e@) =~= Seq::<SampleView>::empty());
    assert(prepend(Seq::empty(), program@, manual_from(lv, 0)) == manual_from(lv, 0)) by {
        if let Some((x, y)) = manual_from(lv, 0) {
            assert(Seq::<SampleView>::empty() + x =~= x);
            assert(Seq::<CodedInstr>::empty() + y =~= y);
        }
    }
    while i < ls.len()
        invariant
            cs@ == input@,
            lv == lines(input@),
            ranges_within(ls@, cs@.len()),
            pieces(cs@, ls@) == lv,
            i <= ls@.len(),
            manual_from(lv, 0) == prepend(examples@.map_values(|e: Example| e@), program@, manual_from(lv, i as nat)),
        decreases ls@.len() - i,
    {
        assert(lv[i as int] == cs@.subrange(ls@[i as int].0 as int, ls@[i as int].1 as int));
        let line = copy_range(&cs, ls[i].0, ls[i].1);
        let ws = word_ranges(&line);
        assert(words(line@).len() == ws@.len());
        let ghost old_es = examples@.map_values(|e: Example| e@);
        let ghost old_ps = program@;
        if ws.len() == 0 {
            i = i + 1;
        } else if starts_sample(&line) {
            if ls.len() - i <= 2 {
                return None;
            }
            assert(lv[i + 1] == cs@.subrange(ls@[i + 1].0 as int, ls@[i + 1].1 as int));
            assert(lv[i + 2] == cs@.subrange(ls@[i + 2].0 as int, ls@[i + 2].1 as int));
            let l1 = copy_range(&cs, ls[i + 1].0, ls[i + 1].1);
            let l2 = copy_range(&cs, ls[i + 2].0, ls[i + 2].1);
            match parse_example(&line, &l1, &l2) {
                None => {
                    return None;
                },
                Some(e) => {
                    examples.push(e);
                    assert(examples@.map_values(|e: Example| e@) =~= old_es + seq![e@]);
                    assert(program@ =~= old_ps + Seq::<CodedInstr>::empty());
                    proof {
                        lemma_prepend_front(old_es, old_ps, seq![e@], Seq::empty(), manual_from(lv, (i + 3) as nat));
                        if let Some((x, y)) = manual_from(lv, (i + 3) as nat) {
                            assert(Seq::<CodedInstr>::empty() + y =~= y);
                        }
                    }
                },
            }
            i = i + 3;
        } else {
            match parse_coded_instr(&line) {
                None => {
                    return None;
                },
                Some(ci) => {
                    program.push(ci);
                    assert(program@ =~= old_ps + seq![ci]);
                    assert(examples@.map_values(|e: Example| e@) =~= old_es + Seq::<SampleView>::empty());
                    proof {
                        lemma_prepend_front(old_es, old_ps, Seq::empty(), seq![ci], manual_from(lv, (i + 1) as nat));
                        if let Some((x, y)) = manual_from(lv, (i + 1) as nat) {
                            assert(Seq::<SampleView>::empty() + x =~= x);
                        }
                    }
                },
            }
            i = i + 1;
        }
    }
    assert(examples@.map_values(|e: Example| e@) + Seq::<SampleView>::empty() =~= examples@.map_values(|e: Example| e@));
    assert(program@ + Seq::<CodedInstr>::empty() =~= program@);
    Some((examples, program))
}

} // verus!
