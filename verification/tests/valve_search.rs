use puzzles::valves::{Cave, ParseError, ParsedValve, StateUnion};

fn ring_cave() -> Cave {
    // A(0) - B(10) - C(0) - D(20) - back to A, all edges both ways.
    let input = "Valve AA has flow rate=0; tunnels lead to valves BB, DD\n\
                 Valve BB has flow rate=10; tunnels lead to valves AA, CC\n\
                 Valve CC has flow rate=0; tunnels lead to valves BB, DD\n\
                 Valve DD has flow rate=20; tunnels lead to valves CC, AA";
    Cave::parse(input).unwrap()
}

#[test]
fn ring_five_steps_one_agent() {
    // Walk to D (step 1), open it (step 2), then its 20 flows for each of
    // the three remaining steps.
    let mut cave = ring_cave();
    assert_eq!(puzzles::valves::plan(&mut cave, 5, false), 60);
}

#[test]
fn run_is_deterministic() {
    let mut cave = ring_cave();
    let a = puzzles::valves::plan(&mut cave, 7, false);
    let b = puzzles::valves::plan(&mut cave, 7, false);
    assert_eq!(a, b);
    let c = puzzles::valves::plan(&mut cave, 6, true);
    let d = puzzles::valves::plan(&mut cave, 6, true);
    assert_eq!(c, d);
}

#[test]
fn zero_steps_scores_zero() {
    let mut cave = ring_cave();
    assert_eq!(puzzles::valves::plan(&mut cave, 0, false), 0);
    assert_eq!(puzzles::valves::plan(&mut cave, 0, true), 0);
}

#[test]
fn more_steps_never_hurt() {
    let mut cave = ring_cave();
    let mut prev = 0;
    for n in 0..10 {
        let cur = puzzles::valves::plan(&mut cave, n, false);
        assert!(cur >= prev);
        prev = cur;
    }
}

#[test]
fn single_node_formula() {
    // One node of weight 7, no edges: one step spent opening, the rest
    // accrue 7 each.
    let parsed = vec![ParsedValve { name: b"AA".to_vec(), flow_rate: 7, exits: vec![] }];
    let mut cave = Cave::from_parsed(&parsed).unwrap();
    assert_eq!(puzzles::valves::plan(&mut cave, 0, false), 0);
    assert_eq!(puzzles::valves::plan(&mut cave, 1, false), 0);
    assert_eq!(puzzles::valves::plan(&mut cave, 2, false), 7);
    assert_eq!(puzzles::valves::plan(&mut cave, 5, false), 28);
}

#[test]
fn two_agents_dominate_one() {
    let mut cave = ring_cave();
    for n in 0..8 {
        let one = puzzles::valves::plan(&mut cave, n, false);
        let two = puzzles::valves::plan(&mut cave, n, true);
        assert!(two >= one);
    }
}

#[test]
fn frontier_deduplicates_states() {
    // Different action sequences reaching the same state share one entry.
    let mut cave = ring_cave();
    let fr0 = StateUnion::new_start(0);
    assert_eq!(fr0.len(), 1);
    let fr1 = fr0.next_minute(&mut cave, false);
    // from A: move to B, move to D, or stay.
    assert_eq!(fr1.len(), 3);
    let fr2 = fr1.next_minute(&mut cave, false);
    // 11 action pairs collapse to 6 distinct states.
    assert_eq!(fr2.len(), 6);
}

#[test]
fn frontier_max_merges() {
    let mut su = StateUnion::new();
    let s = puzzles::valves::State::new(0);
    su.maybe_update_state(s, 5, false);
    su.maybe_update_state(s, 3, false);
    su.maybe_update_state(s, 9, false);
    assert_eq!(su.len(), 1);
    assert_eq!(su.entry(0).1, 9);
}

#[test]
fn construction_fails_fast() {
    match Cave::parse("nonsense") {
        Err(ParseError::BadLine) => {}
        _ => panic!("expected a grammar error"),
    }
    match Cave::parse("Valve AA has flow rate=3; tunnel leads to valve XX") {
        Err(ParseError::UnknownExit) => {}
        _ => panic!("expected an unknown-exit error"),
    }
    match Cave::parse("Valve BB has flow rate=3; tunnel leads to valve BB") {
        Err(ParseError::NoStart) => {}
        _ => panic!("expected a missing-start error"),
    }
    let mut many = Vec::new();
    for i in 0..65u8 {
        many.push(ParsedValve { name: vec![b'A' + i % 26, b'A' + i / 26], flow_rate: 1, exits: vec![] });
    }
    match Cave::from_parsed(&many) {
        Err(ParseError::TooManyValves) => {}
        _ => panic!("expected a size error"),
    }
    let heavy = vec![
        ParsedValve { name: b"AA".to_vec(), flow_rate: u64::MAX, exits: vec![] },
        ParsedValve { name: b"BB".to_vec(), flow_rate: 1, exits: vec![] },
    ];
    match Cave::from_parsed(&heavy) {
        Err(ParseError::FlowOverflow) => {}
        _ => panic!("expected a flow overflow error"),
    }
}

#[test]
fn memoized_rate_matches_sum() {
    let mut cave = ring_cave();
    assert_eq!(cave.get_pressure_per_minute(0), 0);
    // B open: bit 1; D open: bit 3.
    assert_eq!(cave.get_pressure_per_minute(0b0010), 10);
    assert_eq!(cave.get_pressure_per_minute(0b1010), 30);
    // cached lookups return the same values
    assert_eq!(cave.get_pressure_per_minute(0b1010), 30);
}
