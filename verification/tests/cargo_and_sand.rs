use puzzles::crane::{answer, parse_and_apply_moves_part1, parse_and_apply_moves_part2, parse_move, parse_stack};
use puzzles::monkey_math::Maths;
use puzzles::sand::{Cave, Pos};

#[test]
fn crate_moves() {
    assert_eq!(parse_move("move 3 from 8 to 2"), (3, 8, 2));
    assert_eq!(parse_move("move 12 from 1 to 10"), (12, 1, 10));
}

fn drawing() -> &'static str {
    //     [D]
    // [N] [C]
    // [Z] [M] [P]
    //  1   2   3
    "    [D]    \n[N] [C]    \n[Z] [M] [P]\n 1   2   3 "
}

#[test]
fn crate_stacks() {
    let st = parse_stack(drawing());
    assert_eq!(st.len(), 3);
    assert_eq!(st[0], vec![b'Z', b'N']);
    assert_eq!(st[1], vec![b'M', b'C', b'D']);
    assert_eq!(st[2], vec![b'P']);
}

#[test]
fn crate_rearrangement() {
    let moves = "move 1 from 2 to 1\nmove 3 from 1 to 3\nmove 2 from 2 to 1\nmove 1 from 1 to 2";
    let mut one = parse_stack(drawing());
    parse_and_apply_moves_part1(&mut one, moves);
    assert_eq!(answer(&one), vec![b'C', b'M', b'Z']);
    let mut bulk = parse_stack(drawing());
    parse_and_apply_moves_part2(&mut bulk, moves);
    assert_eq!(answer(&bulk), vec![b'M', b'C', b'D']);
}

#[test]
fn monkey_arithmetic() {
    let input = "root: pppw + sjmn\ndbpl: 5\ncczh: sllz + lgvd\nzczc: 2\nptdq: humn - dvpt\n\
                 dvpt: 3\nlfqf: 4\nhumn: 5\nljgn: 2\nsjmn: drzm * dbpl\nsllz: 4\npppw: cczh / lfqf\n\
                 lgvd: ljgn * ptdq\ndrzm: hmdt - zczc\nhmdt: 32";
    let maths = Maths::parse(input);
    assert_eq!(maths.calculate("root"), (152, false));
    assert_eq!(maths.calculate("dbpl"), (5, false));
    assert_eq!(maths.calculate("drzm"), (30, false));
}

#[test]
fn monkey_rounded_division() {
    let maths = Maths::parse("root: aaaa / bbbb\naaaa: 7\nbbbb: 2");
    assert_eq!(maths.calculate("root"), (3, true));
}

#[test]
fn sand_points() {
    let p = Pos::parse("498,4");
    assert_eq!((p.x, p.y), (498, 4));
    let cells = Cave::parse_input_line("498,4 -> 498,6 -> 496,6");
    assert_eq!(cells.len(), 5);
    assert!(cells.contains(&Pos { x: 498, y: 5 }));
    assert!(cells.contains(&Pos { x: 497, y: 6 }));
}

#[test]
fn sand_falls_and_rests() {
    let input = "498,4 -> 498,6 -> 496,6\n503,4 -> 502,4 -> 502,9 -> 494,9";
    {
        // with the abyss at the lowest rock, the example holds 24 grains
        let mut cave = Cave::parse(input);
        cave.abyss_y = cave.largest_y;
        let mut dropped = 0;
        while cave.drop_sand() {
            dropped += 1;
        }
        assert_eq!(dropped, 24);
    }
    {
        // with a floor two below the lowest rock, 93 grains pile up
        let mut cave = Cave::parse(input);
        cave.floor_y = cave.largest_y + 2;
        let mut dropped = 0;
        while cave.drop_sand() {
            dropped += 1;
        }
        assert_eq!(dropped, 93);
    }
}

#[test]
fn packet_parsing() {
    let (p, end) = puzzles::packets::Packet::parse("[1,[2,3],4]");
    assert_eq!(end, 11);
    match p {
        puzzles::packets::Packet::List(items) => {
            assert_eq!(items.len(), 3);
            assert!(matches!(items[0], puzzles::packets::Packet::Number(1)));
            match &items[1] {
                puzzles::packets::Packet::List(inner) => {
                    assert_eq!(inner.len(), 2);
                    assert!(matches!(inner[0], puzzles::packets::Packet::Number(2)));
                    assert!(matches!(inner[1], puzzles::packets::Packet::Number(3)));
                }
                _ => panic!("expected a nested list"),
            }
            assert!(matches!(items[2], puzzles::packets::Packet::Number(4)));
        }
        _ => panic!("expected a list"),
    }
}

#[test]
fn packet_pairs() {
    let (a, b) = puzzles::packets::parse_pair("[9]\n[[8,7]]");
    match a {
        puzzles::packets::Packet::List(items) => {
            assert!(matches!(items[0], puzzles::packets::Packet::Number(9)));
        }
        _ => panic!("expected a list"),
    }
    match b {
        puzzles::packets::Packet::List(items) => {
            assert!(matches!(items[0], puzzles::packets::Packet::List(_)));
        }
        _ => panic!("expected a list"),
    }
}

#[test]
fn directory_totals() {
    // /: a.txt(100), sub/: b.txt(200), deeper/: c.txt(50)
    let deeper = puzzles::filesystem::Dir {
        dirs: vec![],
        files: vec![(b"c.txt".to_vec(), 50)],
        total_size: None,
    };
    let sub = puzzles::filesystem::Dir {
        dirs: vec![(b"deeper".to_vec(), deeper)],
        files: vec![(b"b.txt".to_vec(), 200)],
        total_size: None,
    };
    let mut root = puzzles::filesystem::Dir {
        dirs: vec![(b"sub".to_vec(), sub)],
        files: vec![(b"a.txt".to_vec(), 100)],
        total_size: None,
    };
    root.recalculate_total_sizes();
    assert_eq!(root.total_size, Some(350));
    // every directory is small, so each total counts once
    assert_eq!(root.part1(), 350 + 250 + 50);
    assert_eq!(root.part2(100), 250);
    assert_eq!(root.part2(300), 350);
    assert_eq!(root.part2(1000), u64::MAX);
}

#[test]
fn command_splitting() {
    let cmds = puzzles::filesystem::split_into_commands("$ cd /\n$ ls\ndir a\n100 b.txt\n$ cd a");
    assert_eq!(cmds.len(), 3);
    assert_eq!(cmds[0], b"cd /".to_vec());
    assert_eq!(cmds[1], b"ls\ndir a\n100 b.txt".to_vec());
    assert_eq!(cmds[2], b"cd a".to_vec());
}

#[test]
fn cube_surface() {
    let two: Vec<(isize, isize, isize)> = vec![(1, 1, 1), (2, 1, 1)];
    assert_eq!(puzzles::lava::part1(&two), 10);
    let blob: Vec<(isize, isize, isize)> = vec![
        (2, 2, 2), (1, 2, 2), (3, 2, 2), (2, 1, 2), (2, 3, 2), (2, 2, 1), (2, 2, 3),
        (2, 2, 4), (2, 2, 6), (1, 2, 5), (3, 2, 5), (2, 1, 5), (2, 3, 5),
    ];
    assert_eq!(puzzles::lava::part1(&blob), 64);
    // one cell is a sealed pocket: its six faces drop off the exterior count
    assert_eq!(puzzles::lava::part2(&blob), 58);
    assert_eq!(puzzles::lava::part2(&two), 10);
    // a hollow shell: the exterior excludes the inner cell's faces
    let outside = puzzles::lava::find_outside(&blob);
    assert!(!outside.contains(&(2, 2, 5)));
    assert!(outside.contains(&(0, 0, 0)));
}

#[test]
fn terminal_session() {
    let session = "$ cd /\n$ ls\ndir a\n14848514 b.txt\n8504156 c.dat\ndir d\n$ cd a\n$ ls\n\
                   dir e\n29116 f\n2557 g\n62596 h.lst\n$ cd e\n$ ls\n584 i\n$ cd ..\n$ cd ..\n\
                   $ cd d\n$ ls\n4060174 j\n8033020 d.log\n5626152 d.ext\n7214296 k";
    let commands = puzzles::filesystem::split_into_commands(session);
    let mut root = puzzles::filesystem::simulate_commands(&commands);
    root.recalculate_total_sizes();
    assert_eq!(root.total_size, Some(48381165));
    assert_eq!(root.part1(), 95437);
    let must_delete = 48381165 - (70000000 - 30000000);
    assert_eq!(root.part2(must_delete), 24933642);
}

#[test]
fn packet_ordering() {
    let cmp = |l: &str, r: &str| {
        let (a, _) = puzzles::packets::Packet::parse(l);
        let (b, _) = puzzles::packets::Packet::parse(r);
        puzzles::packets::packet_cmp(&a, &b)
    };
    assert_eq!(cmp("[1,1,3,1,1]", "[1,1,5,1,1]"), -1);
    assert_eq!(cmp("[[1],[2,3,4]]", "[[1],4]"), -1);
    assert_eq!(cmp("[9]", "[[8,7,6]]"), 1);
    assert_eq!(cmp("[[4,4],4,4]", "[[4,4],4,4,4]"), -1);
    assert_eq!(cmp("[7,7,7,7]", "[7,7,7]"), 1);
    assert_eq!(cmp("[]", "[3]"), -1);
    assert_eq!(cmp("[[[]]]", "[[]]"), 1);
    assert_eq!(cmp("[1,[2,[3,[4,[5,6,7]]]],9]", "[1,[2,[3,[4,[5,6,0]]]],8]"), 1);
    assert_eq!(cmp("[1,[2,3],4]", "[1,[2,3],4]"), 0);
}

#[test]
fn cave_text_grammar() {
    // a conforming line parses; near misses are rejected
    let ok = puzzles::valves::ParsedValve::parse(
        &b"Valve AB has flow rate=13; tunnels lead to valves CD, EF".to_vec(),
    );
    match ok {
        Some(pv) => {
            assert_eq!(pv.name, b"AB".to_vec());
            assert_eq!(pv.flow_rate, 13);
            assert_eq!(pv.exits, vec![b"CD".to_vec(), b"EF".to_vec()]);
        }
        None => panic!("expected the line to parse"),
    }
    let singular = puzzles::valves::ParsedValve::parse(
        &b"Valve HH has flow rate=22; tunnel leads to valve GG".to_vec(),
    );
    match singular {
        Some(pv) => {
            assert_eq!(pv.name, b"HH".to_vec());
            assert_eq!(pv.flow_rate, 22);
            assert_eq!(pv.exits, vec![b"GG".to_vec()]);
        }
        None => panic!("expected the singular line to parse"),
    }
    assert!(puzzles::valves::ParsedValve::parse(&b"Valve AB has flow rate=; tunnel leads to valve CD".to_vec()).is_none());
    assert!(puzzles::valves::ParsedValve::parse(&b"Valve AB has flow rate=1; tunnel leads to valve ".to_vec()).is_none());
    assert!(puzzles::valves::ParsedValve::parse(&b"Valve AB has flow rate=1; tunnel leads to valve CD, ".to_vec()).is_none());
    assert!(puzzles::valves::ParsedValve::parse(&b"Valv AB has flow rate=1; tunnel leads to valve CD".to_vec()).is_none());
}
