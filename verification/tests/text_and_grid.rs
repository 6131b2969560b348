use robot_grid::data_structures::IndexSet;
use robot_grid::grid::{Coord, Map2d, CELL_COUNT, D, L, MAP_SIZE, R, U};
use robot_grid::judging::judge_dir_of;
use robot_grid::sorting::sort_by_keys;
use robot_grid::text::{chars_of, decimal_of, is_whitespace, parse_usize_of, split_words};

fn chars(s: &str) -> Vec<char> {
    s.chars().collect()
}

#[test]
fn coord_index_round_trip() {
    let c = Coord::new(3, 7);
    assert_eq!(c.to_index(), 3 * MAP_SIZE + 7);
    let back = Coord::from_index(c.to_index());
    assert_eq!(back, c);
    assert_eq!(Coord::from_index(CELL_COUNT - 1), Coord::new(29, 29));
}

#[test]
fn coord_distance() {
    let a = Coord::new(2, 9);
    let b = Coord::new(5, 1);
    assert_eq!(a.dist(&b), 11);
    assert_eq!(b.dist(&a), 11);
    assert_eq!(a.dist(&a), 0);
}

#[test]
fn map_set_and_get() {
    let mut m: Map2d<u32> = Map2d::filled(4);
    m.set(Coord::new(1, 2), 9);
    assert_eq!(*m.get(Coord::new(1, 2)), 9);
    assert_eq!(*m.get(Coord::new(2, 1)), 4);
    let copy = m.copy();
    assert_eq!(*copy.get(Coord::new(1, 2)), 9);
    assert_eq!(copy.map.len(), CELL_COUNT);
}

#[test]
fn directions_for_the_judge() {
    assert_eq!(judge_dir_of(U), 0);
    assert_eq!(judge_dir_of(D), 1);
    assert_eq!(judge_dir_of(L), 2);
    assert_eq!(judge_dir_of(R), 3);
}

#[test]
fn words_are_split_on_whitespace() {
    let ws = split_words(&chars("  ab c\n\tdef  "));
    assert_eq!(ws, vec![chars("ab"), chars("c"), chars("def")]);
    assert!(split_words(&chars(" \n ")).is_empty());
    assert!(is_whitespace('\n'));
    assert!(!is_whitespace('x'));
    assert_eq!(chars_of("héllo"), chars("héllo"));
}

#[test]
fn numbers_read_and_written() {
    assert_eq!(parse_usize_of(&chars("1234")), Some(1234));
    assert_eq!(parse_usize_of(&chars("+12")), Some(12));
    assert_eq!(parse_usize_of(&chars("")), None);
    assert_eq!(parse_usize_of(&chars("12a")), None);
    assert_eq!(parse_usize_of(&chars("-1")), None);
    assert_eq!(parse_usize_of(&chars("99999999999999999999999")), None);
    assert_eq!(decimal_of(0), chars("0"));
    assert_eq!(decimal_of(907), chars("907"));
    assert_eq!(parse_usize_of(&decimal_of(usize::MAX)), Some(usize::MAX));
}

#[test]
fn sorting_is_stable() {
    let keys: Vec<i64> = vec![5, -1, 5, 0, -1];
    let rs: Vec<usize> = vec![0, 1, 2, 3, 4];
    assert_eq!(sort_by_keys(&rs, &keys), vec![1, 4, 3, 0, 2]);
    let part: Vec<usize> = vec![2, 0, 4];
    assert_eq!(sort_by_keys(&part, &keys), vec![4, 2, 0]);
}

#[test]
fn index_set_add_remove() {
    let mut s = IndexSet::new(6);
    assert_eq!(s.len(), 0);
    s.add(3);
    s.add(5);
    s.add(0);
    assert!(s.contains(3) && s.contains(5) && s.contains(0));
    assert!(!s.contains(1));
    assert_eq!(s.len(), 3);
    s.remove(3);
    assert!(!s.contains(3));
    assert!(s.contains(5) && s.contains(0));
    assert_eq!(s.len(), 2);
    let mut members = s.to_vec();
    members.sort();
    assert_eq!(members, vec![0, 5]);
    s.add(3);
    s.remove(0);
    s.remove(5);
    assert_eq!(s.to_vec(), vec![3]);
}
