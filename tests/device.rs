use rustventofcode::device18::{
    check_program, parse_input, run, run_until_address, step, Instr, LineError, Op, ParseError,
};

fn apply_one(op: Op, a: usize, b: usize, c: usize) -> [usize; 6] {
    let mut regs: [usize; 6] = [3, 2, 1, 1, 12, 5];
    Instr { op, a, b, c }.apply(&mut regs);
    regs
}

#[test]
fn apply_addr() {
    assert_eq!(apply_one(Op::Addr, 0, 1, 3), [3, 2, 1, 5, 12, 5]);
}

#[test]
fn apply_addi() {
    assert_eq!(apply_one(Op::Addi, 0, 7, 3), [3, 2, 1, 10, 12, 5]);
}

#[test]
fn apply_mulr() {
    assert_eq!(apply_one(Op::Mulr, 0, 1, 3), [3, 2, 1, 6, 12, 5]);
}

#[test]
fn apply_muli() {
    assert_eq!(apply_one(Op::Muli, 0, 7, 3), [3, 2, 1, 21, 12, 5]);
}

#[test]
fn apply_banr() {
    assert_eq!(apply_one(Op::Banr, 4, 5, 0), [4, 2, 1, 1, 12, 5]);
}

#[test]
fn apply_bani() {
    assert_eq!(apply_one(Op::Bani, 4, 10, 0), [8, 2, 1, 1, 12, 5]);
}

#[test]
fn apply_borr() {
    assert_eq!(apply_one(Op::Borr, 4, 5, 0), [13, 2, 1, 1, 12, 5]);
}

#[test]
fn apply_bori() {
    assert_eq!(apply_one(Op::Bori, 4, 3, 0), [15, 2, 1, 1, 12, 5]);
}

#[test]
fn apply_setr() {
    assert_eq!(apply_one(Op::Setr, 4, 99, 1), [3, 12, 1, 1, 12, 5]);
}

#[test]
fn apply_seti() {
    assert_eq!(apply_one(Op::Seti, 42, 99, 1), [3, 42, 1, 1, 12, 5]);
}

#[test]
fn apply_gtir() {
    assert_eq!(apply_one(Op::Gtir, 6, 5, 0), [1, 2, 1, 1, 12, 5]);
    assert_eq!(apply_one(Op::Gtir, 5, 5, 0), [0, 2, 1, 1, 12, 5]);
}

#[test]
fn apply_gtri() {
    assert_eq!(apply_one(Op::Gtri, 4, 11, 0), [1, 2, 1, 1, 12, 5]);
    assert_eq!(apply_one(Op::Gtri, 4, 12, 0), [0, 2, 1, 1, 12, 5]);
}

#[test]
fn apply_gtrr() {
    assert_eq!(apply_one(Op::Gtrr, 0, 1, 5), [3, 2, 1, 1, 12, 1]);
    assert_eq!(apply_one(Op::Gtrr, 1, 0, 5), [3, 2, 1, 1, 12, 0]);
}

#[test]
fn apply_eqir() {
    assert_eq!(apply_one(Op::Eqir, 5, 5, 0), [1, 2, 1, 1, 12, 5]);
    assert_eq!(apply_one(Op::Eqir, 4, 5, 0), [0, 2, 1, 1, 12, 5]);
}

#[test]
fn apply_eqri() {
    assert_eq!(apply_one(Op::Eqri, 4, 12, 0), [1, 2, 1, 1, 12, 5]);
    assert_eq!(apply_one(Op::Eqri, 4, 13, 0), [0, 2, 1, 1, 12, 5]);
}

#[test]
fn apply_eqrr() {
    assert_eq!(apply_one(Op::Eqrr, 2, 3, 0), [1, 2, 1, 1, 12, 5]);
    assert_eq!(apply_one(Op::Eqrr, 1, 3, 0), [0, 2, 1, 1, 12, 5]);
}

#[test]
fn apply_wraps_on_overflow() {
    let mut regs: [usize; 6] = [usize::MAX, 2, 0, 0, 0, 0];
    Instr { op: Op::Addi, a: 0, b: 1, c: 2 }.apply(&mut regs);
    assert_eq!(regs[2], 0);
    Instr { op: Op::Mulr, a: 0, b: 1, c: 3 }.apply(&mut regs);
    assert_eq!(regs[3], usize::MAX - 1);
}

#[test]
fn single_addi_program_jumps_past_end() {
    let (ip, prog) = parse_input("#ip 0\naddi 0 1 0".to_string()).unwrap();
    assert_eq!(ip, 0);
    assert_eq!(prog, vec![Instr { op: Op::Addi, a: 0, b: 1, c: 0 }]);
    let mut regs: [usize; 6] = [0; 6];
    let steps = run(ip, &prog, &mut regs, 100);
    assert_eq!(steps, 1);
    assert_eq!(regs[0], 2);
}

#[test]
fn unknown_mnemonic_is_rejected() {
    assert_eq!(
        parse_input("#ip 0\nxorr 0 1 2".to_string()),
        Err(ParseError::BadLine { line: 2, reason: LineError::UnknownMnemonic })
    );
    assert_eq!(
        parse_input("#ip 1\nseti 0 0 1\nADDR 0 1 2\n".to_string()),
        Err(ParseError::BadLine { line: 3, reason: LineError::UnknownMnemonic })
    );
}

#[test]
fn parse_errors() {
    assert_eq!(parse_input(String::new()), Err(ParseError::MissingHeader));
    assert_eq!(parse_input("ip 0\nseti 1 0 0".to_string()), Err(ParseError::BadHeader));
    assert_eq!(parse_input("#ip x\nseti 1 0 0".to_string()), Err(ParseError::BadHeader));
    assert_eq!(
        parse_input("#ip 0\nseti 1 0".to_string()),
        Err(ParseError::BadLine { line: 2, reason: LineError::WrongWordCount })
    );
    assert_eq!(
        parse_input("#ip 0\nseti 1 -2 0".to_string()),
        Err(ParseError::BadLine { line: 2, reason: LineError::BadOperand })
    );
    assert_eq!(
        parse_input("#ip 0\nseti 1 2 99999999999999999999999".to_string()),
        Err(ParseError::BadLine { line: 2, reason: LineError::BadOperand })
    );
}

#[test]
fn parse_skips_blank_lines_and_extra_spaces() {
    let (ip, prog) = parse_input("#ip  3\r\n\n  seti 5 0\t1  \r\n\naddr 1 2 0\n".to_string()).unwrap();
    assert_eq!(ip, 3);
    assert_eq!(
        prog,
        vec![Instr { op: Op::Seti, a: 5, b: 0, c: 1 }, Instr { op: Op::Addr, a: 1, b: 2, c: 0 }]
    );
}

#[test]
fn straight_line_program_halts_after_its_length() {
    let (ip, prog) = parse_input("#ip 5\nseti 1 0 0\naddi 0 2 1\nmulr 0 1 2".to_string()).unwrap();
    assert!(check_program(ip, &prog));
    let mut regs: [usize; 6] = [0; 6];
    assert_eq!(run(ip, &prog, &mut regs, 1000), 3);
    assert_eq!(regs, [1, 3, 3, 0, 0, 3]);
}

#[test]
fn runs_are_deterministic() {
    let (ip, prog) =
        parse_input(
        "#ip 4\nseti 0 0 3\naddi 0 3 0\nmuli 0 2 1\ngtri 1 10 2\naddr 4 2 4\nseti 0 0 4".to_string(),
    )
    .unwrap();
    let mut first: [usize; 6] = [1, 0, 0, 0, 0, 0];
    let mut second: [usize; 6] = [1, 0, 0, 0, 0, 0];
    let s1 = run(ip, &prog, &mut first, 10_000);
    let s2 = run(ip, &prog, &mut second, 10_000);
    assert_eq!(s1, s2);
    assert_eq!(first, second);
    assert_eq!(first, [7, 14, 1, 0, 6, 0]);
}

#[test]
fn end_to_end_sum() {
    let (ip, prog) = parse_input("#ip 0\nseti 5 0 1\nseti 6 0 2\naddr 1 2 0".to_string()).unwrap();
    let mut regs: [usize; 6] = [0; 6];
    step(ip, &prog, &mut regs);
    step(ip, &prog, &mut regs);
    assert_eq!(regs, [2, 5, 6, 0, 0, 0]);
    let mut all: [usize; 6] = [0; 6];
    assert_eq!(run(ip, &prog, &mut all, 100), 3);
    // register 0 is the instruction pointer here: the sum 11 written into it
    // by the third instruction is then advanced by one, past the end
    assert_eq!(all, [12, 5, 6, 0, 0, 0]);
}

#[test]
fn end_to_end_sum_with_separate_pointer() {
    let (ip, prog) = parse_input("#ip 5\nseti 5 0 1\nseti 6 0 2\naddr 1 2 0".to_string()).unwrap();
    let mut regs: [usize; 6] = [0; 6];
    assert_eq!(run(ip, &prog, &mut regs, 100), 3);
    assert_eq!(regs, [11, 5, 6, 0, 0, 3]);
}

#[test]
fn writing_the_pointer_jumps() {
    let (ip, prog) =
        parse_input("#ip 0\nseti 2 0 0\nseti 7 0 1\nseti 8 0 1\nseti 9 0 2".to_string()).unwrap();
    let mut regs: [usize; 6] = [0; 6];
    step(ip, &prog, &mut regs);
    assert_eq!(regs[0], 3);
    let mut all: [usize; 6] = [0; 6];
    assert_eq!(run(ip, &prog, &mut all, 100), 2);
    assert_eq!(all, [4, 0, 9, 0, 0, 0]);
}

#[test]
fn run_stops_at_step_budget() {
    let (ip, prog) = parse_input("#ip 1\nseti 0 0 1\naddi 0 1 0\nseti 0 0 1".to_string()).unwrap();
    let mut regs: [usize; 6] = [0; 6];
    assert_eq!(run(ip, &prog, &mut regs, 11), 11);
    assert_eq!(regs, [5, 1, 0, 0, 0, 0]);
}

#[test]
fn run_until_address_stops_there() {
    let (ip, prog) = parse_input("#ip 1\naddi 0 1 0\naddi 0 1 0\nseti 0 0 1".to_string()).unwrap();
    let mut regs: [usize; 6] = [0; 6];
    assert_eq!(run_until_address(ip, &prog, &mut regs, 2, 100), 2);
    assert_eq!(regs, [2, 2, 0, 0, 0, 0]);
}

#[test]
fn program_check_finds_bad_registers() {
    let (ip, prog) = parse_input("#ip 6\nseti 1 0 0".to_string()).unwrap();
    assert!(!check_program(ip, &prog));
    let (ip, prog) = parse_input("#ip 0\naddr 1 6 0".to_string()).unwrap();
    assert!(!check_program(ip, &prog));
    let (ip, prog) = parse_input("#ip 0\nseti 9 6 0".to_string()).unwrap();
    assert!(check_program(ip, &prog));
}

#[test]
fn single_instruction_lines() {
    assert_eq!(Instr::parse("addi 0 1 0"), Ok(Instr { op: Op::Addi, a: 0, b: 1, c: 0 }));
    assert_eq!("eqrr 3 5 4".parse::<Instr>(), Ok(Instr { op: Op::Eqrr, a: 3, b: 5, c: 4 }));
    assert_eq!(Instr::parse("nope 1 2 3"), Err(LineError::UnknownMnemonic));
    assert_eq!(Instr::parse("seti 1 2"), Err(LineError::WrongWordCount));
}
