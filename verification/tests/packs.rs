use puzzles::rucksack::{common, priority, str_to_u8_set};

#[test]
fn test_priority() {
    assert_eq!(priority(b'b'), 2);
    assert_eq!(priority(b'B'), 28);
}

#[test]
fn priority_bounds() {
    assert_eq!(priority(b'a'), 1);
    assert_eq!(priority(b'z'), 26);
    assert_eq!(priority(b'A'), 27);
    assert_eq!(priority(b'Z'), 52);
}

#[test]
fn byte_sets() {
    let s = str_to_u8_set("abca");
    assert!(s.contains(&b'a'));
    assert!(s.contains(&b'c'));
    assert!(!s.contains(&b'd'));
}

#[test]
fn common_item() {
    assert_eq!(common(&["vJrwpWtwJgWr", "hcsFMMfFFhFp"]), b'p');
    assert_eq!(common(&["abc", "cde", "fgc"]), b'c');
}
