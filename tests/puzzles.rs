use rustventofcode::box_ids;
use rustventofcode::caves;
use rustventofcode::coords;
use rustventofcode::device18::{Instr, Op};
use rustventofcode::fabric::{self, Claim};
use rustventofcode::flow;
use rustventofcode::frequency;
use rustventofcode::fuel_cells;
use rustventofcode::license;
use rustventofcode::lumber;
use rustventofcode::marbles;
use rustventofcode::nanobots::{self, Nanobot};
use rustventofcode::opcodes::{self, CodedInstr, Example};
use rustventofcode::parse::{chars_of, parse_i32, parse_number, to_strings};
use rustventofcode::plants;
use rustventofcode::polymer;
use rustventofcode::recipes;
use rustventofcode::stars;
use rustventofcode::steps;

#[test]
fn lines_as_strings() {
    assert_eq!(to_strings("a b\r\nc\n\nd\n".to_string()), vec!["a b", "c", "", "d"]);
    assert_eq!(to_strings(String::new()), Vec::<String>::new());
    assert_eq!(to_strings("x\r".to_string()), vec!["x\r"]);
    assert_eq!(rustventofcode::parse_input("one\ntwo".to_string()), vec!["one", "two"]);
}

#[test]
fn numbers() {
    let cs = chars_of("12 +7 -2147483648 2147483648 18446744073709551616 x");
    assert_eq!(parse_number(&cs, 0, 2), Some(12));
    assert_eq!(parse_number(&cs, 3, 5), None);
    assert_eq!(parse_i32(&cs, 3, 5), Some(7));
    assert_eq!(parse_i32(&cs, 6, 17), Some(i32::MIN));
    assert_eq!(parse_i32(&cs, 18, 28), None);
    assert_eq!(parse_number(&cs, 18, 28), Some(2147483648));
    assert_eq!(parse_number(&cs, 29, 49), None);
    assert_eq!(parse_number(&cs, 50, 51), None);
    assert_eq!(parse_number(&cs, 0, 0), None);
}

#[test]
fn divisor_sums() {
    assert_eq!(flow::divisor_sum(1), Some(1));
    assert_eq!(flow::divisor_sum(10), Some(18));
    assert_eq!(flow::divisor_sum(0), Some(0));
    assert_eq!(flow::divisor_sum(28), Some(56));
}

#[test]
fn flow_part1_example() {
    let prog = rustventofcode::device18::parse_input(
        "#ip 0\nseti 5 0 1\nseti 6 0 2\naddi 0 1 0\naddr 1 2 3\nsetr 1 0 0\nseti 8 0 4\nseti 9 0 5"
            .to_string(),
    )
    .unwrap();
    assert_eq!(flow::part1(&prog, 1000), Some(7));
    assert_eq!(flow::part1(&prog, 2), None);
}

#[test]
fn flow_part2_sums_divisors_of_register_5() {
    // address 0 sets register 5, address 1 is where the main loop would start
    let prog = rustventofcode::device18::parse_input(
        "#ip 3\nseti 12 0 5\nseti 0 0 0\naddi 3 0 3".to_string(),
    )
    .unwrap();
    assert_eq!(flow::part2(&prog, 100), Some(1 + 28));
    assert_eq!(flow::part2(&prog, 0), None);
}

fn sample() -> Example {
    Example {
        before: [3, 2, 1, 1],
        after: [3, 2, 2, 1],
        instr: CodedInstr { opcode: 9, a: 2, b: 1, c: 2 },
    }
}

#[test]
fn opcode_sample_matches_three_ops() {
    let e = sample();
    assert!(opcodes::check_op_match(&Op::Mulr, &e));
    assert!(opcodes::check_op_match(&Op::Addi, &e));
    assert!(opcodes::check_op_match(&Op::Seti, &e));
    assert!(!opcodes::check_op_match(&Op::Addr, &e));
    assert_eq!(opcodes::count_matching_ops(&e), 3);
    assert_eq!(opcodes::part1(&(vec![e, e], vec![])), 2);
}

#[test]
fn opcode_apply() {
    let instr = CodedInstr { opcode: 0, a: 0, b: 7, c: 3 };
    assert_eq!(opcodes::apply_op(&Op::Muli, [3, 0, 0, 0], instr), [3, 0, 0, 21]);
    assert_eq!(opcodes::op_list()[15], Op::Eqrr);
}

#[test]
fn opcode_manual_parses() {
    let text = "Before: [3, 2, 1, 1]\n9 2 1 2\nAfter:  [3, 2, 2, 1]\n\nBefore: [0, 1, 2, 3]\n4 1 2 0\nAfter:  [3, 1, 2, 3]\n\n\n\n9 1 1 0\n4 0 1 2\n";
    let (examples, program) = opcodes::parse_input(text.to_string()).unwrap();
    assert_eq!(examples.len(), 2);
    assert_eq!(examples[0].before, [3, 2, 1, 1]);
    assert_eq!(examples[0].after, [3, 2, 2, 1]);
    assert_eq!(examples[0].instr, CodedInstr { opcode: 9, a: 2, b: 1, c: 2 });
    assert_eq!(examples[1].instr, CodedInstr { opcode: 4, a: 1, b: 2, c: 0 });
    assert_eq!(
        program,
        vec![CodedInstr { opcode: 9, a: 1, b: 1, c: 0 }, CodedInstr { opcode: 4, a: 0, b: 1, c: 2 }]
    );
    assert!(opcodes::parse_input("Before: [1, 2]\n1 2 3 4\nAfter: [1, 2, 3, 4]".to_string()).is_none());
    assert!(opcodes::parse_input("1 2 3\n".to_string()).is_none());
}

#[test]
fn opcode_resolution_and_run() {
    let ops = opcodes::op_list();
    // one sample per opcode, opcode i standing for operation 15 - i; register
    // values chosen so that each sample fits its operation alone
    let mut examples = Vec::new();
    for i in 0..16usize {
        let op = ops[15 - i];
        let instr = CodedInstr { opcode: i, a: 1, b: 2, c: 3 };
        let before = [0, 6, 3, 9];
        let ins = Instr { op, a: 1, b: 2, c: 3 };
        let mut regs6 = [0, 6, 3, 9, 0, 0];
        ins.apply(&mut regs6);
        let after = [regs6[0], regs6[1], regs6[2], regs6[3]];
        examples.push(Example { before, after, instr });
    }
    // several operations give the same registers on these samples (both
    // bitwise ands give 2, all equality tests give 0), so they stay ambiguous
    assert_eq!(opcodes::resolve_opcodes(&examples), None);
    assert_eq!(opcodes::part2(&(examples.clone(), vec![])), None);
    let mapping: [Op; 16] = core::array::from_fn(|i| ops[15 - i]);
    // seti 5 -> r0 (opcode 6 is Seti), then addi r0 + 4 -> r0 (opcode 14 is Addi)
    let program = vec![CodedInstr { opcode: 6, a: 5, b: 0, c: 0 }, CodedInstr { opcode: 14, a: 0, b: 4, c: 0 }];
    assert_eq!(opcodes::run_decoded(&mapping, &program), Some(9));
    assert_eq!(opcodes::run_decoded(&mapping, &[CodedInstr { opcode: 16, a: 0, b: 0, c: 0 }].to_vec()), None);
    assert_eq!(opcodes::run_decoded(&mapping, &[CodedInstr { opcode: 6, a: 0, b: 0, c: 4 }].to_vec()), None);
    assert_eq!(opcodes::part2(&(vec![sample()], program)), None);
}

#[test]
fn get_digits_takes_first_four() {
    assert_eq!(opcodes::get_digits(&chars_of("Before: [3, 2, 1, 1]")), Some([3, 2, 1, 1]));
    assert_eq!(opcodes::get_digits(&chars_of("12 3")), None);
}

#[test]
fn frequency_examples() {
    let changes = frequency::parse_input("+1\n-2\n+3\n+1\n".to_string()).unwrap();
    assert_eq!(changes, vec![1, -2, 3, 1]);
    assert_eq!(frequency::part1(&changes), 3);
    assert_eq!(frequency::part2(&changes, 1000), Some(2));
    assert_eq!(frequency::part2(&[1, -1], 1000), Some(0));
    assert_eq!(frequency::part2(&[3, 3, 4, -2, -4], 1000), Some(10));
    assert_eq!(frequency::part2(&[-6, 3, 8, 5, -6], 1000), Some(5));
    assert_eq!(frequency::part2(&[7, 7, -2, -7, -4], 1000), Some(14));
    assert_eq!(frequency::part2(&[1, 2], 1000), None);
    assert_eq!(frequency::part1(&[i32::MAX, i32::MAX]), 2 * i32::MAX as i64);
    assert!(frequency::parse_input("+1\nx\n".to_string()).is_none());
}

#[test]
fn box_id_checksum() {
    let ids: Vec<String> = ["abcdef", "bababc", "abbcde", "abcccd", "aabcdd", "abcdee", "ababab"]
        .iter()
        .map(|s| s.to_string())
        .collect();
    assert_eq!(box_ids::part1(&ids), 12);
    assert_eq!(box_ids::count_chars(&chars_of("bababc"), 'b'), 3);
    assert!(box_ids::has_letter_count(&chars_of("bababc"), 2));
    assert!(!box_ids::has_letter_count(&chars_of("abcdef"), 2));
}

#[test]
fn box_id_common_letters() {
    let ids: Vec<String> = ["abcde", "fghij", "klmno", "pqrst", "fguij", "axcye", "wvxyz"]
        .iter()
        .map(|s| s.to_string())
        .collect();
    assert_eq!(box_ids::part2(&ids), Some("fgij".to_string()));
    assert!(box_ids::differ_by_one("fghij", "fguij"));
    assert!(!box_ids::differ_by_one("abcde", "axcye"));
    assert_eq!(box_ids::common_chars("abcde", "axcye"), "ace");
    assert_eq!(box_ids::part2(&vec!["ab".to_string(), "cd".to_string()]), None);
}

#[test]
fn polymer_reactions() {
    assert_eq!(polymer::part1("dabAcCaCBAcCcaDA\n"), 10);
    assert_eq!(polymer::part1("aA"), 0);
    assert_eq!(polymer::part1("abBA"), 0);
    assert_eq!(polymer::part1("aabAAB"), 6);
    assert_eq!(polymer::part2("dabAcCaCBAcCcaDA"), 4);
    assert!(polymer::reacts('a', 'A'));
    assert!(!polymer::reacts('a', 'a'));
    assert!(!polymer::reacts('a', 'B'));
    assert_eq!(polymer::remove_unit(&chars_of("aAbB"), 'a'), vec!['b', 'B']);
}

fn halting_program() -> (usize, Vec<Instr>) {
    let mut text = String::from("#ip 2\nseti 42 0 5\n");
    for addr in 1..31 {
        let line = match addr {
            6 => "addi 5 1 5",
            7 => "bani 5 3 5",
            _ => "seti 0 0 4",
        };
        text.push_str(line);
        text.push('\n');
    }
    rustventofcode::device18::parse_input(text).unwrap()
}

#[test]
fn halting_first_exit_value() {
    let prog = halting_program();
    assert_eq!(rustventofcode::halting::part1(&prog, 1000), Some(3));
    assert_eq!(rustventofcode::halting::part1(&prog, 5), None);
}

#[test]
fn halting_newest_exit_value() {
    let prog = halting_program();
    assert_eq!(rustventofcode::halting::part2(&prog, 30), Some(3));
    assert_eq!(rustventofcode::halting::part2(&prog, 10_000), Some(2));
    assert_eq!(rustventofcode::halting::part2(&prog, 10), None);
}

#[test]
fn fabric_claims() {
    let claims = fabric::parse_input("#1 @ 1,3: 4x4\n#2 @ 3,1: 4x4\n#3 @ 5,5: 2x2\n".to_string()).unwrap();
    assert_eq!(claims[0], Claim { id: 1, x: 1, y: 3, w: 4, h: 4 });
    assert_eq!(claims[2], Claim { id: 3, x: 5, y: 5, w: 2, h: 2 });
    assert_eq!(fabric::part1(&claims), 4);
    assert_eq!(fabric::part2(&claims), Some(3));
    assert_eq!(fabric::get_range(&claims), ((1, 6), (1, 6)));
    assert_eq!(claims[0].xmax(), 4);
    assert_eq!(claims[0].ymax(), 6);
    assert!(claims[0].contains(&4, &6));
    assert!(!claims[0].contains(&5, &6));
    assert!(claims[0].overlaps(&claims[1]));
    assert!(!claims[0].overlaps(&claims[2]));
    assert_eq!(fabric::part2(&claims[..2]), None);
    assert_eq!(fabric::part1(&[]), 0);
}

#[test]
fn fabric_bad_claims() {
    assert!(fabric::parse_input("#1 @ 1,3: 0x4".to_string()).is_none());
    assert!(fabric::parse_input("#1 at 1,3: 2x4".to_string()).is_none());
    assert!(fabric::parse_input("#1 @ 13: 2x4".to_string()).is_none());
    assert_eq!(fabric::find_char(&chars_of("ab,c,"), 0, 5, ','), Some(2));
    assert_eq!(fabric::find_char(&chars_of("ab,c,"), 3, 5, ','), Some(1));
    assert_eq!(fabric::find_char(&chars_of("abc"), 0, 3, ','), None);
}

fn area_text(marks: &[(usize, usize, char)]) -> String {
    let mut rows: Vec<Vec<char>> = vec![vec!['.'; 50]; 50];
    for &(x, y, c) in marks {
        rows[y][x] = c;
    }
    rows.iter().map(|r| r.iter().collect::<String>() + "\n").collect()
}

#[test]
fn lumber_area_parses_and_steps() {
    let text = area_text(&[(0, 0, '|'), (1, 0, '|'), (0, 1, '|')]);
    let g = lumber::parse_input(text).unwrap();
    assert_eq!(g.len(), 2500);
    assert_eq!(lumber::neighbours(1, 1, &g, '|'), 3);
    assert_eq!(lumber::neighbours(0, 0, &g, '|'), 2);
    let next = lumber::step(&g);
    assert_eq!(next[50 + 1], '|');
    assert_eq!(next[2], '.');
    assert_eq!(lumber::estimate_value(&next), 0);
    assert!(lumber::same_area(&g, &g));
    assert!(!lumber::same_area(&g, &next));
}

#[test]
fn lumber_stable_yards() {
    let text = area_text(&[(0, 0, '#'), (1, 0, '#'), (0, 1, '|'), (1, 1, '|')]);
    let g = lumber::parse_input(text).unwrap();
    assert_eq!(lumber::estimate_value(&g), 4);
    assert_eq!(lumber::part1(&g), 4);
    assert_eq!(lumber::part2(&g), 4);
}

#[test]
fn lumber_lone_yard_clears() {
    let text = area_text(&[(5, 5, '#'), (6, 5, '|'), (7, 5, '|'), (8, 5, '|')]);
    let g = lumber::parse_input(text).unwrap();
    assert_eq!(lumber::estimate_value(&g), 3);
    let next = lumber::step(&g);
    assert_eq!(next[5 * 50 + 5], '.');
    assert_eq!(lumber::part1(&g), 0);
}

#[test]
fn lumber_bad_areas() {
    assert!(lumber::parse_input("...\n".to_string()).is_none());
    let mut text = area_text(&[]);
    text.replace_range(0..1, "x");
    assert!(lumber::parse_input(text).is_none());
}

#[test]
fn nanobots_in_range() {
    let text = "pos=<0,0,0>, r=4\npos=<1,0,0>, r=1\npos=<4,0,0>, r=3\npos=<0,2,0>, r=1\npos=<0,5,0>, r=3\npos=<0,0,3>, r=1\npos=<1,1,1>, r=1\npos=<1,1,2>, r=1\npos=<1,3,1>, r=1\n";
    let bots = nanobots::parse_input(text.to_string()).unwrap();
    assert_eq!(bots.len(), 9);
    assert_eq!(bots[2].coord, [4, 0, 0]);
    assert_eq!(bots[2].r, 3);
    assert_eq!(nanobots::part1(&bots), 7);
    assert_eq!(bots[0].distance([1, -3, 2]), 6);
    let far = Nanobot { coord: [i32::MIN, 0, 0], r: 0 };
    assert_eq!(far.distance([i32::MAX, 0, 0]), 4294967295);
}

#[test]
fn nanobots_parse() {
    let bots = nanobots::parse_input("pos=<-1,20,-300>, r=7".to_string()).unwrap();
    assert_eq!(bots[0].coord, [-1, 20, -300]);
    assert_eq!(bots[0].r, 7);
    assert!(nanobots::parse_input("pos=<1,2>, r=7".to_string()).is_none());
    assert!(nanobots::parse_input("pos=<1,2,3> r=7".to_string()).is_none());
    assert!(nanobots::parse_input("pos=<1,2,3>, r=-7".to_string()).is_none());
    // the last of equally strong bots counts
    let tie = vec![Nanobot { coord: [0, 0, 0], r: 2 }, Nanobot { coord: [10, 0, 0], r: 2 }];
    assert_eq!(nanobots::part1(&tie), 1);
}

#[test]
fn coordinate_areas() {
    let cs = coords::parse_input("1, 1\n1, 6\n8, 3\n3, 4\n5, 5\n8, 9\n".to_string()).unwrap();
    assert_eq!(cs, vec![(1, 1), (1, 6), (8, 3), (3, 4), (5, 5), (8, 9)]);
    assert_eq!(coords::get_range(&cs), ((1, 8), (1, 9)));
    assert_eq!(coords::part1(&cs), Some(17));
    assert_eq!(coords::part2(&cs), 72);
    assert_eq!(coords::l1((1, 6), (8, 3)), 10);
    assert_eq!(coords::closest(&cs, 5, 4), Some(4));
    assert_eq!(coords::closest(&cs, 0, 4), None);
    assert_eq!(coords::total_distance(&cs, 4, 3), 30);
}

#[test]
fn coordinate_edge_cases() {
    assert_eq!(coords::part1(&[]), None);
    assert_eq!(coords::part2(&[]), 0);
    assert_eq!(coords::part1(&[(3, 3)]), None);
    assert!(coords::parse_input("1 1\n".to_string()).is_none());
    assert_eq!(coords::parse_input("  7 ,  2  ".to_string()), Some(vec![(7, 2)]));
}

#[test]
fn fuel_cell_power_levels() {
    assert_eq!(fuel_cells::power(2, 4, 8), 4);
    assert_eq!(fuel_cells::power(121, 78, 57), -5);
    assert_eq!(fuel_cells::power(216, 195, 39), 0);
    assert_eq!(fuel_cells::power(100, 152, 71), 4);
}

#[test]
fn fuel_cell_best_square() {
    assert_eq!(fuel_cells::part1(&18), (33, 45));
    assert_eq!(fuel_cells::part1(&42), (21, 61));
    let g = fuel_cells::build_grid(18);
    assert_eq!(fuel_cells::square_total(&g, 18, 32, 44, 3), 29);
    assert_eq!(fuel_cells::square_total(&g, 18, 89, 268, 16), 113);
}

#[test]
fn recipe_scores() {
    assert_eq!(recipes::part1(&9), "5158916779");
    assert_eq!(recipes::part1(&5), "0124515891");
    assert_eq!(recipes::part1(&18), "9251071085");
    assert_eq!(recipes::part1(&2018), "5941429882");
    assert_eq!(recipes::part1(&0), "3710101245");
}

#[test]
fn first_line_numbers() {
    assert_eq!(rustventofcode::parse::first_line_number("7347\n".to_string()), Some(7347));
    assert_eq!(rustventofcode::parse::first_line_number("x\n".to_string()), None);
    assert_eq!(rustventofcode::parse::first_line_number(String::new()), None);
}

fn garden_text() -> String {
    let growing = [
        "...##", "..#..", ".#...", ".#.#.", ".#.##", ".##..", ".####", "#.#.#", "#.###", "##.#.",
        "##.##", "###..", "###.#", "####.",
    ];
    let mut text = String::from("initial state: #..#.#..##......###...###\n\n");
    for n in 0..32u32 {
        let pattern: String =
            (0..5).map(|b| if n & (1 << (4 - b)) != 0 { '#' } else { '.' }).collect();
        let result = if growing.contains(&pattern.as_str()) { '#' } else { '.' };
        text.push_str(&format!("{pattern} => {result}\n"));
    }
    text
}

#[test]
fn plants_after_twenty_generations() {
    let (state, rules) = plants::parse_input(garden_text()).unwrap();
    assert_eq!(state.iter().collect::<String>(), "#..#.#..##......###...###");
    assert_eq!(rules.len(), 32);
    assert_eq!(rules[0b00011], Some('#'));
    assert_eq!(rules[0], Some('.'));
    assert_eq!(plants::part1(&state, &rules), Some(325));
    let next = plants::step(&state, &rules).unwrap();
    assert_eq!(next.iter().collect::<String>(), "..#...#....#.....#..#..#..#..");
    assert_eq!(plants::eval(&next, 1), 91);
}

#[test]
fn plants_missing_rule() {
    let (state, mut rules) = plants::parse_input(garden_text()).unwrap();
    rules[0] = None;
    assert_eq!(plants::step(&state, &rules), None);
    assert_eq!(plants::part1(&state, &rules), None);
    assert!(plants::parse_input("initial: #\n\n".to_string()).is_none());
    assert!(plants::parse_input("initial state: #\n\n..#.. -> #\n".to_string()).is_none());
}

#[test]
fn marble_high_scores() {
    assert_eq!(marbles::part1(&(9, 25)), 32);
    assert_eq!(marbles::part1(&(10, 1618)), 8317);
    assert_eq!(marbles::part1(&(13, 7999)), 146373);
    assert_eq!(marbles::part1(&(17, 1104)), 2764);
    assert_eq!(marbles::part1(&(21, 6111)), 54718);
    assert_eq!(marbles::part1(&(30, 5807)), 37305);
    assert_eq!(marbles::part1(&(3, 1)), 0);
    assert_eq!(marbles::part2(&(9, 1)), marbles::part1(&(9, 100)));
}

#[test]
fn marble_game_parses() {
    assert_eq!(
        marbles::parse_input("10 players; last marble is worth 1618 points\n".to_string()),
        Some((10, 1618))
    );
    assert_eq!(marbles::parse_input("10 players; last marble is worth points".to_string()), None);
    assert_eq!(marbles::parse_input("10 player; last marble is worth 5 points".to_string()), None);
}

#[test]
fn step_order() {
    let text = "Step C must be finished before step A can begin.\nStep C must be finished before step F can begin.\nStep A must be finished before step B can begin.\nStep A must be finished before step D can begin.\nStep B must be finished before step E can begin.\nStep D must be finished before step E can begin.\nStep F must be finished before step E can begin.\n";
    let edges = steps::parse_input(text.to_string());
    assert_eq!(edges.len(), 7);
    assert_eq!(edges[0], ('C', 'A'));
    let order: String = steps::part1(&edges).into_iter().collect();
    assert_eq!(order, "CABDFE");
    assert_eq!(steps::part2(&edges), Some(253));
    assert_eq!(steps::duration(&'A'), 61);
    assert_eq!(steps::duration(&'Z'), 86);
    assert_eq!(steps::next_step(&edges, &vec!['C'], &vec!['C']), Some('A'));
    assert_eq!(steps::next_step(&edges, &vec!['C', 'A', 'B', 'D', 'F', 'E'], &vec!['C', 'A', 'B', 'D', 'F', 'E']), None);
}

#[test]
fn step_lines_that_are_not_requirements() {
    let edges = steps::parse_input("Step X must be done before step Y can begin.\nStep B must be finished before step A can begin.".to_string());
    assert_eq!(edges, vec![('B', 'A')]);
    assert_eq!(steps::part1(&vec![('A', 'B'), ('B', 'A')]), Vec::<char>::new());
}

const STAR_TEXT: &str = "position=< 9,  1> velocity=< 0,  2>
position=< 7,  0> velocity=<-1,  0>
position=< 3, -2> velocity=<-1,  1>
position=< 6, 10> velocity=<-2, -1>
position=< 2, -4> velocity=< 2,  2>
position=<-6, 10> velocity=< 2, -2>
position=< 1,  8> velocity=< 1, -1>
position=< 1,  7> velocity=< 1,  0>
position=<-3, 11> velocity=< 1, -2>
position=< 7,  6> velocity=<-1, -1>
position=<-2,  3> velocity=< 1,  0>
position=<-4,  3> velocity=< 2,  0>
position=<10, -3> velocity=<-1,  1>
position=< 5, 11> velocity=< 1, -2>
position=< 4,  7> velocity=< 0, -1>
position=< 8, -2> velocity=< 0,  1>
position=<15,  0> velocity=<-2,  0>
position=< 1,  6> velocity=< 1,  0>
position=< 8,  9> velocity=< 0, -1>
position=< 3,  3> velocity=<-1,  1>
position=< 0,  5> velocity=< 0, -1>
position=<-2,  2> velocity=< 2,  0>
position=< 5, -2> velocity=< 1,  2>
position=< 1,  4> velocity=< 2,  1>
position=<-2,  7> velocity=< 2, -2>
position=< 3,  6> velocity=<-1, -1>
position=< 5,  0> velocity=< 1,  0>
position=<-6,  0> velocity=< 2,  0>
position=< 5,  9> velocity=< 1, -2>
position=<14,  7> velocity=<-2,  0>
position=<-3,  6> velocity=< 2, -1>
";

#[test]
fn star_message() {
    let points = stars::parse_input(STAR_TEXT.to_string());
    assert_eq!(points.len(), 31);
    assert_eq!(points[3].position, (6, 10));
    assert_eq!(points[3].velocity, (-2, -1));
    assert_eq!(stars::part2(&points, 100), Some(3));
    assert_eq!(stars::get_height(&points, 3), 7);
    let (rows, s) = stars::part1(&points, 100).unwrap();
    assert_eq!(s, 3);
    let text: Vec<String> = rows.iter().map(|r| r.iter().collect()).collect();
    assert_eq!(
        text,
        vec![
            "#   #  ###", "#   #   # ", "#   #   # ", "#####   # ", "#   #   # ", "#   #   # ",
            "#   #   # ", "#   #  ###",
        ]
    );
    assert_eq!(stars::part2(&points, 2), None);
}

#[test]
fn star_points_move() {
    let mut p = stars::Point { position: (3, -2), velocity: (-1, 1) };
    p.evolve(3);
    assert_eq!(p.position, (0, 1));
    assert_eq!(stars::range(&[p], 2, true), (-2, -2));
    assert!(stars::parse_input("position=<1, 2> speed=<1, 1>".to_string()).is_empty());
}

#[test]
fn license_tree() {
    let root = license::parse_input("2 3 0 3 10 11 12 1 1 0 1 99 2 1 1 2\n".to_string()).unwrap();
    assert_eq!(root.children.len(), 2);
    assert_eq!(root.data, vec![1, 1, 2]);
    assert_eq!(root.children[1].children[0].data, vec![99]);
    assert_eq!(license::part1(&root), Some(138));
    assert_eq!(license::part2(&root), Some(66));
    assert_eq!(root.children[0].sum(), Some(33));
    assert_eq!(root.children[1].value(), Some(0));
}

#[test]
fn license_bad_numbers() {
    assert!(license::parse_input("2 3 0 3 10 11 12".to_string()).is_none());
    assert!(license::parse_input("0 1 5 7".to_string()).is_none());
    assert!(license::parse_input("0 x".to_string()).is_none());
    let (end, node) = license::tree_from_numbers(&vec![9, 0, 1, 5, 7], 1).unwrap();
    assert_eq!(end, 4);
    assert_eq!(node.data, vec![5]);
    let big = license::Node { children: vec![], data: vec![usize::MAX, 1] };
    assert_eq!(big.sum(), None);
    assert_eq!(big.value(), None);
}

#[test]
fn recipe_pattern_search() {
    assert_eq!(recipes::part2(&51589, 10_000), Some(9));
    assert_eq!(recipes::part2(&92510, 10_000), Some(18));
    assert_eq!(recipes::part2(&59414, 10_000), Some(2018));
    assert_eq!(recipes::part2(&59414, 5), None);
    assert_eq!(recipes::digits(0), vec![0]);
    assert_eq!(recipes::digits(5908), vec![5, 9, 0, 8]);
}

#[test]
fn cave_risk() {
    let scan = caves::parse_input("depth: 510\ntarget: 10,10\n".to_string()).unwrap();
    assert_eq!(scan, (510, (10, 10)));
    assert_eq!(caves::part1(&scan), 114);
    let grid = caves::build_grid(&510, &(10, 10), &(2, 1));
    assert_eq!(grid.len(), 12);
    assert_eq!(grid[0].len(), 13);
    // erosion levels 510, 17317, 8415, 1805 at (0,0), (1,0), (0,1), (1,1)
    assert_eq!(grid[0][0], 0);
    assert_eq!(grid[0][1], 1);
    assert_eq!(grid[1][0], 0);
    assert_eq!(grid[1][1], 2);
    assert_eq!(grid[10][10], 0);
    assert!(caves::parse_input("depth 510\ntarget: 10,10".to_string()).is_none());
}
