//! The register machine: sixteen operations over six registers, one of
//! which holds the instruction pointer; its program text, and running it.

use vstd::prelude::*;

use crate::parse::{
    chars_of, copy_range, line_ranges, lines, number_of, parse_number, pieces, ranges_within,
    word_ranges, words,
};

verus! {

/// Number of registers in the machine's register file.
pub const NUM_REGISTERS: usize = 6;

/// The sixteen operations of the machine.
#[derive(Clone, Copy, Debug, PartialEq, Eq, Structural)]
pub enum Op {
    Addr,
    Addi,
    Mulr,
    Muli,
    Banr,
    Bani,
    Borr,
    Bori,
    Setr,
    Seti,
    Gtir,
    Gtri,
    Gtrr,
    Eqir,
    Eqri,
    Eqrr,
}

/// One instruction: an operation and its three operands.
/// `c` always names the destination register.
#[derive(Clone, Copy, Debug, PartialEq, Eq, Structural)]
pub struct Instr {
    pub op: Op,
    pub a: usize,
    pub b: usize,
    pub c: usize,
}

/// Whether operand `a` of `op` names a register (rather than being a literal).
pub open spec fn reads_reg_a(op: Op) -> bool {
    !(op is Seti || op is Gtir || op is Eqir)
}

/// Whether operand `b` of `op` names a register (rather than being a literal or unused).
pub open spec fn reads_reg_b(op: Op) -> bool {
    match op {
        Op::Addr | Op::Mulr | Op::Banr | Op::Borr | Op::Gtir | Op::Gtrr | Op::Eqir | Op::Eqrr => true,
        _ => false,
    }
}

/// 1 for true, 0 for false.
pub open spec fn flag(b: bool) -> usize {
    if b { 1 } else { 0 }
}

/// The value that `op` with operands `a`, `b` computes on the register file `r`.
/// Addition and multiplication wrap around at the word size.
pub open spec fn op_value(op: Op, a: usize, b: usize, r: Seq<usize>) -> usize {
    match op {
        Op::Addr => vstd::wrapping::usize_specs::wrapping_add(r[a as int], r[b as int]),
        Op::Addi => vstd::wrapping::usize_specs::wrapping_add(r[a as int], b),
        Op::Mulr => vstd::wrapping::usize_specs::wrapping_mul(r[a as int], r[b as int]),
        Op::Muli => vstd::wrapping::usize_specs::wrapping_mul(r[a as int], b),
        Op::Banr => r[a as int] & r[b as int],
        Op::Bani => r[a as int] & b,
        Op::Borr => r[a as int] | r[b as int],
        Op::Bori => r[a as int] | b,
        Op::Setr => r[a as int],
        Op::Seti => a,
        Op::Gtir => flag(a > r[b as int]),
        Op::Gtri => flag(r[a as int] > b),
        Op::Gtrr => flag(r[a as int] > r[b as int]),
        Op::Eqir => flag(a == r[b as int]),
        Op::Eqri => flag(r[a as int] == b),
        Op::Eqrr => flag(r[a as int] == r[b as int]),
    }
}

impl Instr {
    /// Every register that the instruction names is below `n`.
    pub open spec fn fits(self, n: nat) -> bool {
        &&& self.c < n
        &&& reads_reg_a(self.op) ==> self.a < n
        &&& reads_reg_b(self.op) ==> self.b < n
    }

    /// The register file after executing the instruction on `r`.
    pub open spec fn spec_apply(self, r: Seq<usize>) -> Seq<usize> {
        r.update(self.c as int, op_value(self.op, self.a, self.b, r))
    }

    /// Whether every register that the instruction names is below `n`.
    pub fn fits_registers(&self, n: usize) -> (r: bool)
        ensures
            r == self.fits(n as nat),
    {
        let a_ok = match self.op {
            Op::Seti | Op::Gtir | Op::Eqir => true,
            _ => self.a < n,
        };
        let b_ok = match self.op {
            Op::Addr | Op::Mulr | Op::Banr | Op::Borr | Op::Gtir | Op::Gtrr | Op::Eqir | Op::Eqrr => self.b < n,
            _ => true,
        };
        self.c < n && a_ok && b_ok
    }

    /// The value that the instruction writes, computed on the register file `r`.
    pub fn value<const N: usize>(&self, r: &[usize; N]) -> (v: usize)
        requires
            self.fits(N as nat),
        ensures
            v == op_value(self.op, self.a, self.b, r@),
    {
        let (a, b) = (self.a, self.b);
        match self.op {
            Op::Addr => r[a].wrapping_add(r[b]),
            Op::Addi => r[a].wrapping_add(b),
            Op::Mulr => r[a].wrapping_mul(r[b]),
            Op::Muli => r[a].wrapping_mul(b),
            Op::Banr => r[a] & r[b],
            Op::Bani => r[a] & b,
            Op::Borr => r[a] | r[b],
            Op::Bori => r[a] | b,
            Op::Setr => r[a],
            Op::Seti => a,
            Op::Gtir => if a > r[b] { 1 } else { 0 },
            Op::Gtri => if r[a] > b { 1 } else { 0 },
            Op::Gtrr => if r[a] > r[b] { 1 } else { 0 },
            Op::Eqir => if a == r[b] { 1 } else { 0 },
            Op::Eqri => if r[a] == b { 1 } else { 0 },
            Op::Eqrr => if r[a] == r[b] { 1 } else { 0 },
        }
    }

    /// Executes the instruction on the register file: register `c` takes the
    /// operation's value and every other register is left as it was.
    pub fn apply(&self, registers: &mut [usize; 6])
        requires
            self.fits(6),
        ensures
            final(registers)@ == self.spec_apply(old(registers)@),
    {
        let v = self.value(registers);
        registers[self.c] = v;
    }
}

/// Why one line of a program could not be read as an instruction.
#[derive(Clone, Copy, Debug, PartialEq, Eq, Structural)]
pub enum LineError {
    /// The line does not hold exactly four words.
    WrongWordCount,
    /// The first word is not one of the sixteen mnemonics.
    UnknownMnemonic,
    /// An operand is not a non-negative integer that fits a `usize`.
    BadOperand,
}

/// Why a program text could not be read.
#[derive(Clone, Copy, Debug, PartialEq, Eq, Structural)]
pub enum ParseError {
    /// The text has no lines at all.
    MissingHeader,
    /// The first line is not `#ip` followed by a register number.
    BadHeader,
    /// The line with this number (the header being line 1) is not an instruction.
    BadLine { line: usize, reason: LineError },
}

/// The operation that the mnemonic `w` names, if any.
pub open spec fn op_named(w: Seq<char>) -> Option<Op> {
    if w.len() != 4 {
        None
    } else {
        match (w[0], w[1], w[2], w[3]) {
            ('a', 'd', 'd', 'r') => Some(Op::Addr),
            ('a', 'd', 'd', 'i') => Some(Op::Addi),
            ('m', 'u', 'l', 'r') => Some(Op::Mulr),
            ('m', 'u', 'l', 'i') => Some(Op::Muli),
            ('b', 'a', 'n', 'r') => Some(Op::Banr),
            ('b', 'a', 'n', 'i') => Some(Op::Bani),
            ('b', 'o', 'r', 'r') => Some(Op::Borr),
            ('b', 'o', 'r', 'i') => Some(Op::Bori),
            ('s', 'e', 't', 'r') => Some(Op::Setr),
            ('s', 'e', 't', 'i') => Some(Op::Seti),
            ('g', 't', 'i', 'r') => Some(Op::Gtir),
            ('g', 't', 'r', 'i') => Some(Op::Gtri),
            ('g', 't', 'r', 'r') => Some(Op::Gtrr),
            ('e', 'q', 'i', 'r') => Some(Op::Eqir),
            ('e', 'q', 'r', 'i') => Some(Op::Eqri),
            ('e', 'q', 'r', 'r') => Some(Op::Eqrr),
            _ => None,
        }
    }
}

/// The instruction that the line `l` spells out, or why there is none.
pub open spec fn instr_of_line(l: Seq<char>) -> Result<Instr, LineError> {
    let w = words(l);
    if w.len() != 4 {
        Err(LineError::WrongWordCount)
    } else {
        match op_named(w[0]) {
            None => Err(LineError::UnknownMnemonic),
            Some(op) => match (number_of(w[1]), number_of(w[2]), number_of(w[3])) {
                (Some(a), Some(b), Some(c)) => Ok(Instr { op, a, b, c }),
                _ => Err(LineError::BadOperand),
            },
        }
    }
}

/// The register number that the header line `l` (`#ip <N>`) gives, if it is one.
pub open spec fn header_of(l: Seq<char>) -> Option<usize> {
    let w = words(l);
    if w.len() == 2 && w[0] == seq!['#', 'i', 'p'] {
        number_of(w[1])
    } else {
        None
    }
}

/// The instructions of lines `1..k` of `ls`, lines without words skipped; or
/// the error of the first line that is not an instruction.
pub open spec fn body_of(ls: Seq<Seq<char>>, k: nat) -> Result<Seq<Instr>, ParseError>
    decreases k,
{
    if k <= 1 {
        Ok(Seq::empty())
    } else {
        match body_of(ls, (k - 1) as nat) {
            Err(e) => Err(e),
            Ok(p) => {
                let l = ls[k - 1];
                if words(l).len() == 0 {
                    Ok(p)
                } else {
                    match instr_of_line(l) {
                        Ok(i) => Ok(p.push(i)),
                        Err(reason) => Err(ParseError::BadLine { line: k as usize, reason }),
                    }
                }
            },
        }
    }
}

/// Once a line of the body fails, reading more lines gives the same error.
proof fn lemma_body_error_stays(ls: Seq<Seq<char>>, k: nat, m: nat)
    requires
        k <= m,
        body_of(ls, k) is Err,
    ensures
        body_of(ls, m) == body_of(ls, k),
    decreases m - k,
{
    if k < m {
        lemma_body_error_stays(ls, k, (m - 1) as nat);
    }
}

/// The instruction-pointer register and the program that the text `s` holds,
/// or why it holds none.
pub open spec fn program_of(s: Seq<char>) -> Result<(usize, Seq<Instr>), ParseError> {
    let ls = lines(s);
    if ls.len() == 0 {
        Err(ParseError::MissingHeader)
    } else {
        match header_of(ls[0]) {
            None => Err(ParseError::BadHeader),
            Some(ip) => match body_of(ls, ls.len()) {
                Ok(p) => Ok((ip, p)),
                Err(e) => Err(e),
            },
        }
    }
}

/// The operation that the characters `s[lo..hi]` name, if any.
pub fn op_from_mnemonic(s: &Vec<char>, lo: usize, hi: usize) -> (r: Option<Op>)
    requires
        lo <= hi <= s@.len(),
    ensures
        r == op_named(s@.subrange(lo as int, hi as int)),
{
    let ghost w = s@.subrange(lo as int, hi as int);
    if hi - lo != 4 {
        return None;
    }
    let (c0, c1, c2, c3) = (s[lo], s[lo + 1], s[lo + 2], s[lo + 3]);
    match (c0, c1, c2, c3) {
        ('a', 'd', 'd', 'r') => Some(Op::Addr),
        ('a', 'd', 'd', 'i') => Some(Op::Addi),
        ('m', 'u', 'l', 'r') => Some(Op::Mulr),
        ('m', 'u', 'l', 'i') => Some(Op::Muli),
        ('b', 'a', 'n', 'r') => Some(Op::Banr),
        ('b', 'a', 'n', 'i') => Some(Op::Bani),
        ('b', 'o', 'r', 'r') => Some(Op::Borr),
        ('b', 'o', 'r', 'i') => Some(Op::Bori),
        ('s', 'e', 't', 'r') => Some(Op::Setr),
        ('s', 'e', 't', 'i') => Some(Op::Seti),
        ('g', 't', 'i', 'r') => Some(Op::Gtir),
        ('g', 't', 'r', 'i') => Some(Op::Gtri),
        ('g', 't', 'r', 'r') => Some(Op::Gtrr),
        ('e', 'q', 'i', 'r') => Some(Op::Eqir),
        ('e', 'q', 'r', 'i') => Some(Op::Eqri),
        ('e', 'q', 'r', 'r') => Some(Op::Eqrr),
        _ => None,
    }
}

/// Reads one line of a program as an instruction.
pub fn parse_line(l: &Vec<char>) -> (r: Result<Instr, LineError>)
    ensures
        r == instr_of_line(l@),
{
    let ws = word_ranges(l);
    if ws.len() != 4 {
        return Err(LineError::WrongWordCount);
    }
    let ghost w = words(l@);
    assert(w[0] == l@.subrange(ws@[0].0 as int, ws@[0].1 as int));
    assert(w[1] == l@.subrange(ws@[1].0 as int, ws@[1].1 as int));
    assert(w[2] == l@.subrange(ws@[2].0 as int, ws@[2].1 as int));
    assert(w[3] == l@.subrange(ws@[3].0 as int, ws@[3].1 as int));
    let op = match op_from_mnemonic(l, ws[0].0, ws[0].1) {
        None => {
            return Err(LineError::UnknownMnemonic);
        },
        Some(op) => op,
    };
    let a = parse_number(l, ws[1].0, ws[1].1);
    let b = parse_number(l, ws[2].0, ws[2].1);
    let c = parse_number(l, ws[3].0, ws[3].1);
    match (a, b, c) {
        (Some(a), Some(b), Some(c)) => Ok(Instr { op, a, b, c }),
        _ => Err(LineError::BadOperand),
    }
}

impl Instr {
    /// Reads one line of a program, such as `addi 0 1 0`, as an instruction.
    pub fn parse(line: &str) -> (r: Result<Instr, LineError>)
        ensures
            r == instr_of_line(line@),
    {
        parse_line(&chars_of(line))
    }
}

impl std::str::FromStr for Instr {
    type Err = LineError;

    fn from_str(s: &str) -> Result<Instr, LineError> {
        Instr::parse(s)
    }
}

/// Reads a header line `#ip <N>` and returns `N`.
pub fn parse_header(l: &Vec<char>) -> (r: Option<usize>)
    ensures
        r == header_of(l@),
{
    let ws = word_ranges(l);
    if ws.len() != 2 {
        return None;
    }
    let ghost w = words(l@);
    assert(w[0] == l@.subrange(ws@[0].0 as int, ws@[0].1 as int));
    assert(w[1] == l@.subrange(ws@[1].0 as int, ws@[1].1 as int));
    let (lo, hi) = ws[0];
    if !(hi - lo == 3 && l[lo] == '#' && l[lo + 1] == 'i' && l[lo + 2] == 'p') {
        assert(hi - lo == 3 ==> l@.subrange(lo as int, hi as int) =~= seq![l@[lo as int], l@[lo + 1], l@[lo + 2]]);
        return None;
    }
    assert(w[0] =~= seq!['#', 'i', 'p']);
    parse_number(l, ws[1].0, ws[1].1)
}

/// Reads a program: a header line `#ip <N>` naming the register that holds
/// the instruction pointer, then one instruction per line. Lines without
/// words are skipped; the first line that is not an instruction is reported.
pub fn parse_input(input: String) -> (r: Result<(usize, Vec<Instr>), ParseError>)
    ensures
        match program_of(input@) {
            Ok((ip, prog)) => r is Ok && r->Ok_0.0 == ip && r->Ok_0.1@ == prog,
            Err(e) => r == Err::<(usize, Vec<Instr>), ParseError>(e),
        },
{
    let cs = chars_of(input.as_str());
    let ls = line_ranges(&cs);
    let ghost lv = lines(input@);
    if ls.len() == 0 {
        return Err(ParseError::MissingHeader);
    }
    assert(lv[0] == cs@.subrange(ls@[0].0 as int, ls@[0].1 as int));
    let header = copy_range(&cs, ls[0].0, ls[0].1);
    let ip = match parse_header(&header) {
        None => {
            return Err(ParseError::BadHeader);
        },
        Some(ip) => ip,
    };
    let mut prog: Vec<Instr> = Vec::new();
    let mut k: usize = 1;
    while k < ls.len()
        invariant
            cs@ == input@,
            lv == lines(input@),
            ranges_within(ls@, cs@.len()),
            pieces(cs@, ls@) == lv,
            1 <= k <= ls@.len(),
            header_of(lv[0]) == Some(ip),
            body_of(lv, k as nat) == Ok::<Seq<Instr>, ParseError>(prog@),
        decreases ls@.len() - k,
    {
        assert(lv[k as int] == cs@.subrange(ls@[k as int].0 as int, ls@[k as int].1 as int));
        let line = copy_range(&cs, ls[k].0, ls[k].1);
        let ws = word_ranges(&line);
        assert(words(line@).len() == ws@.len());
        if ws.len() != 0 {
            match parse_line(&line) {
                Ok(i) => {
                    prog.push(i);
                },
                Err(reason) => {
                    assert(body_of(lv, (k + 1) as nat) == Err::<Seq<Instr>, ParseError>(
                        ParseError::BadLine { line: (k + 1) as usize, reason },
                    ));
                    proof {
                        lemma_body_error_stays(lv, (k + 1) as nat, lv.len());
                    }
                    return Err(ParseError::BadLine { line: k + 1, reason });
                },
            }
        }
        k = k + 1;
    }
    Ok((ip, prog))
}

/// The program fits a machine of `NUM_REGISTERS` registers: the
/// instruction-pointer register and every register that an instruction names
/// exist.
pub open spec fn well_formed(ip: usize, prog: Seq<Instr>) -> bool {
    &&& ip < NUM_REGISTERS
    &&& forall|i: int| 0 <= i < prog.len() ==> (#[trigger] prog[i]).fits(NUM_REGISTERS as nat)
}

/// The machine has halted: the instruction-pointer register holds no address
/// of the program.
pub open spec fn is_halted(ip: usize, prog: Seq<Instr>, r: Seq<usize>) -> bool {
    r[ip as int] >= prog.len()
}

/// One fetch-apply-advance cycle: the instruction at the address that register
/// `ip` holds is applied, then register `ip` is incremented (wrapping).
pub open spec fn step_of(ip: usize, prog: Seq<Instr>, r: Seq<usize>) -> Seq<usize> {
    let after = prog[r[ip as int] as int].spec_apply(r);
    after.update(ip as int, vstd::wrapping::usize_specs::wrapping_add(after[ip as int], 1))
}

/// The register file after at most `n` cycles from `r`, stopping early where
/// the machine halts.
pub open spec fn run_of(ip: usize, prog: Seq<Instr>, r: Seq<usize>, n: nat) -> Seq<usize>
    decreases n,
{
    if n == 0 || is_halted(ip, prog, r) {
        r
    } else {
        run_of(ip, prog, step_of(ip, prog, r), (n - 1) as nat)
    }
}

/// The register file after running from `r` until the instruction-pointer
/// register holds `target`, until the machine halts, or for `n` cycles,
/// whichever comes first.
pub open spec fn run_to(ip: usize, prog: Seq<Instr>, r: Seq<usize>, target: usize, n: nat) -> Seq<usize>
    decreases n,
{
    if n == 0 || is_halted(ip, prog, r) || r[ip as int] == target {
        r
    } else {
        run_to(ip, prog, step_of(ip, prog, r), target, (n - 1) as nat)
    }
}

/// Whether `prog` and `ip` fit a machine of `NUM_REGISTERS` registers.
pub fn check_program(ip: usize, instructions: &Vec<Instr>) -> (r: bool)
    ensures
        r == well_formed(ip, instructions@),
{
    if ip >= NUM_REGISTERS {
        return false;
    }
    let mut i: usize = 0;
    while i < instructions.len()
        invariant
            i <= instructions@.len(),
            forall|j: int| 0 <= j < i ==> (#[trigger] instructions@[j]).fits(NUM_REGISTERS as nat),
        decreases instructions@.len() - i,
    {
        let fits = instructions[i].fits_registers(NUM_REGISTERS);
        if !fits {
            return false;
        }
        i = i + 1;
    }
    true
}

/// Runs one fetch-apply-advance cycle of a machine that has not halted.
pub fn step(ip: usize, instructions: &Vec<Instr>, registers: &mut [usize; 6])
    requires
        well_formed(ip, instructions@),
        !is_halted(ip, instructions@, old(registers)@),
    ensures
        final(registers)@ == step_of(ip, instructions@, old(registers)@),
{
    let ins = instructions[registers[ip]];
    ins.apply(registers);
    registers[ip] = registers[ip].wrapping_add(1);
}

/// Runs the machine until it halts, or for `max_steps` cycles where it does
/// not halt before. Returns the number of cycles run.
pub fn run(ip: usize, instructions: &Vec<Instr>, registers: &mut [usize; 6], max_steps: usize) -> (steps: usize)
    requires
        well_formed(ip, instructions@),
    ensures
        steps <= max_steps,
        final(registers)@ == run_of(ip, instructions@, old(registers)@, steps as nat),
        final(registers)@ == run_of(ip, instructions@, old(registers)@, max_steps as nat),
        steps < max_steps ==> is_halted(ip, instructions@, final(registers)@),
        forall|k: nat| k < steps ==> !is_halted(ip, instructions@, #[trigger] run_of(ip, instructions@, old(registers)@, k)),
{
    let ghost start = registers@;
    let mut steps: usize = 0;
    while steps < max_steps && registers[ip] < instructions.len()
        invariant
            well_formed(ip, instructions@),
            steps <= max_steps,
            run_of(ip, instructions@, start, steps as nat) == registers@,
            forall|n: nat| #[trigger] run_of(ip, instructions@, registers@, n) == run_of(ip, instructions@, start, (steps + n) as nat),
            forall|k: nat| k < steps ==> !is_halted(ip, instructions@, #[trigger] run_of(ip, instructions@, start, k)),
        decreases max_steps - steps,
    {
        let ghost before = registers@;
        step(ip, instructions, registers);
        assert forall|n: nat| #[trigger] run_of(ip, instructions@, registers@, n) == run_of(ip, instructions@, start, (steps + 1 + n) as nat) by {
            assert(run_of(ip, instructions@, before, (n + 1) as nat) == run_of(ip, instructions@, registers@, n));
        }
        assert(run_of(ip, instructions@, registers@, 0) == registers@);
        steps = steps + 1;
    }
    assert(run_of(ip, instructions@, registers@, (max_steps - steps) as nat) == registers@);
    steps
}

/// Runs the machine until the instruction-pointer register holds `target`,
/// until it halts, or for `max_steps` cycles, whichever comes first. Returns
/// the number of cycles run.
pub fn run_until_address(
    ip: usize,
    instructions: &Vec<Instr>,
    registers: &mut [usize; 6],
    target: usize,
    max_steps: usize,
) -> (steps: usize)
    requires
        well_formed(ip, instructions@),
    ensures
        steps <= max_steps,
        final(registers)@ == run_to(ip, instructions@, old(registers)@, target, max_steps as nat),
        final(registers)@ == run_of(ip, instructions@, old(registers)@, steps as nat),
        steps < max_steps ==> final(registers)[ip as int] == target || is_halted(ip, instructions@, final(registers)@),
        forall|k: nat| k < steps ==> {
            let r = #[trigger] run_of(ip, instructions@, old(registers)@, k);
            r[ip as int] != target && !is_halted(ip, instructions@, r)
        },
{
    let ghost start = registers@;
    let mut steps: usize = 0;
    while steps < max_steps && registers[ip] != target && registers[ip] < instructions.len()
        invariant
            well_formed(ip, instructions@),
            steps <= max_steps,
            run_of(ip, instructions@, start, steps as nat) == registers@,
            forall|n: nat| #[trigger] run_of(ip, instructions@, registers@, n) == run_of(ip, instructions@, start, (steps + n) as nat),
            forall|n: nat| #[trigger] run_to(ip, instructions@, registers@, target, n) == run_to(ip, instructions@, start, target, (steps + n) as nat),
            forall|k: nat| k < steps ==> {
                let r = #[trigger] run_of(ip, instructions@, start, k);
                r[ip as int] != target && !is_halted(ip, instructions@, r)
            },
        decreases max_steps - steps,
    {
        let ghost before = registers@;
        step(ip, instructions, registers);
        assert forall|n: nat| #[trigger] run_of(ip, instructions@, registers@, n) == run_of(ip, instructions@, start, (steps + 1 + n) as nat) by {
            assert(run_of(ip, instructions@, before, (n + 1) as nat) == run_of(ip, instructions@, registers@, n));
        }
        assert forall|n: nat| #[trigger] run_to(ip, instructions@, registers@, target, n) == run_to(ip, instructions@, start, target, (steps + 1 + n) as nat) by {
            assert(run_to(ip, instructions@, before, target, (n + 1) as nat) == run_to(ip, instructions@, registers@, target, n));
        }
        assert(run_of(ip, instructions@, registers@, 0) == registers@);
        steps = steps + 1;
    }
    assert(run_to(ip, instructions@, registers@, target, (max_steps - steps) as nat) == registers@);
    steps
}

/// A program without jumps runs straight through: where no instruction
/// writes the instruction-pointer register and that register starts at 0,
/// after `k` cycles it holds `k` for every `k` up to the program's length, the
/// machine has not halted before, and it halts after exactly as many cycles
/// as there are instructions.
pub proof fn lemma_straight_line_halts(ip: usize, prog: Seq<Instr>, r: Seq<usize>)
    requires
        well_formed(ip, prog),
        prog.len() <= usize::MAX,
        r.len() == NUM_REGISTERS,
        r[ip as int] == 0,
        forall|i: int| 0 <= i < prog.len() ==> (#[trigger] prog[i]).c != ip,
    ensures
        forall|k: nat| k <= prog.len() ==> (#[trigger] run_of(ip, prog, r, k))[ip as int] == k,
        forall|k: nat| k < prog.len() ==> !is_halted(ip, prog, #[trigger] run_of(ip, prog, r, k)),
        is_halted(ip, prog, run_of(ip, prog, r, prog.len())),
{
    assert forall|k: nat| k <= prog.len() implies (#[trigger] run_of(ip, prog, r, k))[ip as int] == k by {
        lemma_straight_line_advances(ip, prog, r, k);
    }
}

/// From a register file whose instruction pointer is `j`, a program that
/// never writes that register reaches address `j + m` after `m` cycles.
proof fn lemma_straight_line_advances(ip: usize, prog: Seq<Instr>, r: Seq<usize>, m: nat)
    requires
        well_formed(ip, prog),
        prog.len() <= usize::MAX,
        r.len() == NUM_REGISTERS,
        r[ip as int] + m <= prog.len(),
        forall|i: int| 0 <= i < prog.len() ==> (#[trigger] prog[i]).c != ip,
    ensures
        run_of(ip, prog, r, m).len() == NUM_REGISTERS,
        run_of(ip, prog, r, m)[ip as int] == r[ip as int] + m,
    decreases m,
{
    if m > 0 {
        let next = step_of(ip, prog, r);
        assert(prog[r[ip as int] as int].c != ip);
        assert(next[ip as int] == r[ip as int] + 1);
        lemma_straight_line_advances(ip, prog, next, (m - 1) as nat);
    }
}

/// Running is deterministic: the same program from the same register file
/// for the same number of cycles ends in the same register file.
pub proof fn lemma_run_deterministic(ip: usize, prog: Seq<Instr>, r1: Seq<usize>, r2: Seq<usize>, n: nat)
    requires
        r1 == r2,
    ensures
        run_of(ip, prog, r1, n) == run_of(ip, prog, r2, n),
{
}

/// The instruction pointer is an ordinary register: an instruction that
/// writes `v` into it sends control to address `v + 1`, not to the address
/// after its own.
pub proof fn lemma_write_to_ip_jumps(ip: usize, prog: Seq<Instr>, r: Seq<usize>)
    requires
        well_formed(ip, prog),
        r.len() == NUM_REGISTERS,
        !is_halted(ip, prog, r),
        prog[r[ip as int] as int].c == ip,
    ensures
        ({
            let ins = prog[r[ip as int] as int];
            step_of(ip, prog, r)[ip as int] == vstd::wrapping::usize_specs::wrapping_add(
                op_value(ins.op, ins.a, ins.b, r),
                1,
            )
        }),
{
}

/// A program is refused as soon as one of its lines, after the header, holds
/// four words of which the first is no mnemonic.
pub proof fn lemma_unknown_mnemonic_rejected(s: Seq<char>, k: int)
    requires
        1 <= k < lines(s).len(),
        words(lines(s)[k]).len() == 4,
        op_named(words(lines(s)[k])[0]) is None,
    ensures
        program_of(s) is Err,
{
    let ls = lines(s);
    assert(body_of(ls, (k + 1) as nat) is Err);
    lemma_body_error_stays(ls, (k + 1) as nat, ls.len());
}

} // verus!
