use puzzles::arith::div_round_up;
use puzzles::assignments::{parse_line, parse_range};
use puzzles::cpu::{Cpu, Instruction};
use puzzles::forest::Grid;
use puzzles::mixing::ReorgList;
use puzzles::monkeys::{Monkey, Operation, ThrowTest};
use puzzles::path::{Cmd, Path};
use puzzles::pieces::Piece;
use puzzles::snafu::{parse_snafu, to_snafu};
use puzzles::strategy::{part1_score_line, part2_score_line};
use puzzles::tuning::find_first_unique_sequence;

#[test]
fn round_scores() {
    assert_eq!(part1_score_line("A Y"), 8);
    assert_eq!(part1_score_line("B X"), 1);
    assert_eq!(part1_score_line("C Z"), 6);
    assert_eq!(part2_score_line("A Y"), 4);
    assert_eq!(part2_score_line("B X"), 1);
    assert_eq!(part2_score_line("C Z"), 7);
}

#[test]
fn assignment_parsing() {
    assert_eq!(parse_range("2-4"), (2, 4));
    assert_eq!(parse_range("10-20"), (10, 20));
    assert_eq!(parse_line("2-4,6-8"), ((2, 4), (6, 8)));
    assert_eq!(parse_line("12-42,0-9"), ((12, 42), (0, 9)));
}

#[test]
fn first_unique_window() {
    assert_eq!(find_first_unique_sequence("bvwbjplbgvbhsrlpgdmjqwftvncz", 4), 5);
    assert_eq!(find_first_unique_sequence("nppdvjthqldpwncqszvftbrmjlhg", 4), 6);
    assert_eq!(find_first_unique_sequence("mjqjpqmgbljsphdztnvjfqwrcgsmlb", 14), 19);
}

#[test]
fn snafu_numerals() {
    assert_eq!(parse_snafu("2=-01"), 976);
    assert_eq!(parse_snafu("1=-0-2"), 1747);
    assert_eq!(to_snafu(976), "2=-01");
    assert_eq!(to_snafu(4890), "2=-1=0");
    for v in [1isize, 2, 3, 4, 5, 2022, 12345] {
        assert_eq!(parse_snafu(&to_snafu(v)), v);
    }
}

#[test]
fn cpu_instructions() {
    assert_eq!(Instruction::parse("noop"), Instruction::Noop);
    assert_eq!(Instruction::parse("addx -5"), Instruction::Addx(-5));
    assert_eq!(Instruction::parse("addx 17"), Instruction::Addx(17));
    let prog = puzzles::cpu::parse_input("noop\naddx 3\naddx -5").unwrap();
    assert_eq!(prog, vec![Instruction::Noop, Instruction::Addx(3), Instruction::Addx(-5)]);
    assert!(puzzles::cpu::parse_input("noop\nfrobnicate").is_none());
}

#[test]
fn cpu_execution() {
    let mut cpu = Cpu::new();
    assert_eq!((cpu.cycle, cpu.x), (1, 1));
    cpu.execute(Instruction::Noop);
    assert_eq!((cpu.cycle, cpu.x), (2, 1));
    cpu.execute(Instruction::Addx(3));
    assert_eq!((cpu.cycle, cpu.x), (4, 4));
    cpu.execute(Instruction::Addx(-5));
    assert_eq!((cpu.cycle, cpu.x), (6, -1));
}

#[test]
fn cpu_signal_strength() {
    let mut cpu = Cpu::new();
    cpu.cycle = 20;
    cpu.x = 5;
    cpu.maybe_record_signal_strength();
    assert_eq!(cpu.signal_strength_sum, 100);
    cpu.cycle = 21;
    cpu.maybe_record_signal_strength();
    assert_eq!(cpu.signal_strength_sum, 100);
}

#[test]
fn tree_visibility() {
    let mut g = Grid::parse("30373\n25512\n65332\n33549\n35390");
    assert_eq!((g.rows, g.cols), (5, 5));
    g.calculate_visible();
    assert_eq!(g.count_visible(), 21);
    assert_eq!(g.calculate_scenic_score(1, 2), 4);
    assert_eq!(g.calculate_scenic_score(3, 2), 8);
    assert_eq!(g.find_highest_scenic_score(), 8);
}

#[test]
fn list_mixing() {
    let mut list = ReorgList::parse("1\n2\n-3\n3\n-2\n0\n4", 1);
    assert_eq!(list.values, vec![1, 2, -3, 3, -2, 0, 4]);
    list.mix();
    let zero = list.find_by_value(0);
    let a = list.value_at(list.skip(zero, 1000));
    let b = list.value_at(list.skip(zero, 2000));
    let c = list.value_at(list.skip(zero, 3000));
    assert_eq!(a + b + c, 3);
}

#[test]
fn piece_shapes() {
    let flat = Piece::parse("####");
    assert_eq!((flat.width, flat.height), (4, 1));
    assert_eq!(flat.shape, vec![vec![true, true, true, true]]);
    let corner = Piece::parse("..#\n..#\n###");
    assert_eq!((corner.width, corner.height), (3, 3));
    assert_eq!(corner.shape[0], vec![true, true, true]);
    assert_eq!(corner.shape[1], vec![false, false, true]);
    assert_eq!(corner.shape[2], vec![false, false, true]);
}

#[test]
fn path_commands() {
    let p = Path::parse("10R5L5");
    assert_eq!(
        p.0,
        vec![Cmd::Move(10), Cmd::R, Cmd::Move(5), Cmd::L, Cmd::Move(5)],
    );
}

#[test]
fn monkey_construction() {
    let m = Monkey::new(
        &vec![79, 98],
        Operation::Mul(19),
        ThrowTest { divisor: 23, if_true: 2, if_false: 3 },
    );
    assert_eq!(m.items.iter().copied().collect::<Vec<u64>>(), vec![79, 98]);
    assert_eq!(m.inspect_count, 0);
    assert_eq!(m.operation.apply(10), 190);
    assert_eq!(m.test.target(46), 2);
    assert_eq!(m.test.target(47), 3);
}

#[test]
fn rounded_up_division() {
    assert_eq!(div_round_up(7, 3), 3);
    assert_eq!(div_round_up(6, 3), 2);
    assert_eq!(div_round_up(0, 5), 0);
    assert_eq!(div_round_up(1, 5), 1);
}
