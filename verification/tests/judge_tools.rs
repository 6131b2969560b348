use robot_grid::tools::{
    compute_score, compute_score_details, parse_input, parse_output, read, read_char, try_parse_input, Input,
    Output, SetMinMax,
};

fn chars(s: &str) -> Vec<char> {
    s.chars().collect()
}

const SMALL: &str = "3 2\n0 0 0 2\n2 2 1 1\n00\n10\n00\n000\n010\n";

fn small() -> Input {
    parse_input(SMALL)
}

fn empty_output(input: &Input, group: Vec<usize>, out: Vec<(char, usize, usize)>) -> Output {
    Output { wall_v: input.wall_v.clone(), wall_h: input.wall_h.clone(), group, out }
}

#[test]
fn parse_small_instance() {
    let input = small();
    assert_eq!(input.N, 3);
    assert_eq!(input.K, 2);
    assert_eq!(input.W, 0);
    assert_eq!(input.ss, vec![(0, 0), (2, 2)]);
    assert_eq!(input.ts, vec![(0, 2), (1, 1)]);
    assert_eq!(input.wall_v, vec![vec![false, false], vec![true, false], vec![false, false]]);
    assert_eq!(input.wall_h, vec![vec![false, false, false], vec![false, true, false]]);
    assert!(input.check());
}

#[test]
fn instance_text_round_trip() {
    let input = small();
    let text = input.to_text();
    assert_eq!(text, SMALL);
    let again = parse_input(&text);
    assert_eq!(again.N, input.N);
    assert_eq!(again.K, input.K);
    assert_eq!(again.ss, input.ss);
    assert_eq!(again.ts, input.ts);
    assert_eq!(again.wall_v, input.wall_v);
    assert_eq!(again.wall_h, input.wall_h);
}

#[test]
fn bad_instance_text_is_refused() {
    assert!(try_parse_input("3").is_none());
    assert!(try_parse_input("3 1\n0 0 x 2\n00\n00\n00\n000\n000\n").is_none());
    assert!(try_parse_input("3 1\n0 0 0 2\n00\n00\n").is_none());
    assert!(try_parse_input(SMALL).is_some());
}

#[test]
fn malformed_instance_fails_check() {
    let mut input = small();
    input.ss[1] = (0, 0);
    assert!(!input.check());
    let mut input = small();
    input.wall_v.pop();
    assert!(!input.check());
    let mut input = small();
    input.ts[0] = (3, 0);
    assert!(!input.check());
}

#[test]
fn read_numbers_and_errors() {
    assert_eq!(read(Some(&chars("3")), 0, 5), Ok(3));
    assert_eq!(read(None, 0, 5), Err("Unexpected EOF".to_string()));
    assert_eq!(read(Some(&chars("x")), 0, 5), Err("Parse error: x".to_string()));
    assert_eq!(read(Some(&chars("7")), 0, 5), Err("Out of range: 7".to_string()));
    assert_eq!(read(Some(&chars("+4")), 0, 5), Ok(4));
    assert_eq!(read(Some(&chars("05")), 0, 5), Err("Out of range: 5".to_string()));
}

#[test]
fn read_characters_and_errors() {
    assert_eq!(read_char(Some(&chars("g")), 'a', 'z'), Ok('g'));
    assert_eq!(read_char(None, 'a', 'z'), Err("Unexpected EOF".to_string()));
    assert_eq!(read_char(Some(&chars("G")), 'a', 'z'), Err("Out of range: G".to_string()));
    assert_eq!(read_char(Some(&chars("gg")), 'a', 'z'), Err("Parse error: gg".to_string()));
}

#[test]
fn parse_output_reads_a_solution() {
    let input = small();
    let out = parse_output(&input, "01\n00\n00\n000\n000\n0 1\ng 0 R\ni 1 U\n").unwrap();
    assert_eq!(out.wall_v, vec![vec![false, true], vec![true, false], vec![false, false]]);
    assert_eq!(out.wall_h, input.wall_h);
    assert_eq!(out.group, vec![0, 1]);
    assert_eq!(out.out, vec![('g', 0, 3), ('i', 1, 0)]);
}

#[test]
fn parse_output_errors() {
    let input = small();
    let walls = "00\n00\n00\n000\n000\n";
    let cases: Vec<(String, &str)> = vec![
        ("00\n00\n".to_string(), "Unexpected EOF"),
        ("000\n".to_string(), "Illegal output format for v"),
        ("02\n00\n00\n".to_string(), "Invalid character in v: 2"),
        ("00\n00\n00\n00\n".to_string(), "Illegal output format for h"),
        ("00\n00\n00\n0x0\n".to_string(), "Invalid character in h: x"),
        (format!("{}0", walls), "Unexpected EOF"),
        (format!("{}0 2", walls), "Out of range: 2"),
        (format!("{}0 1\nx 0 U", walls), "Invalid a[t] character: x"),
        (format!("{}0 1\ng 0 X", walls), "Invalid direction: X"),
        (format!("{}0 1\ng 0 u", walls), "Out of range: u"),
        (format!("{}0 1\ni 2 U", walls), "Out of range: 2"),
        (format!("{}0 1\ni 1", walls), "Unexpected EOF"),
    ];
    for (text, message) in cases {
        match parse_output(&input, &text) {
            Err(e) => assert_eq!(e, message, "for {:?}", text),
            Ok(_) => panic!("accepted {:?}", text),
        }
    }
}

#[test]
fn parse_output_limits_the_moves() {
    let input = parse_input("2 1\n0 0 1 1\n0\n0\n00\n");
    let mut text = String::from("0\n0\n00\n0\n");
    for _ in 0..4 {
        text.push_str("i 0 R\n");
    }
    assert!(parse_output(&input, &text).is_ok());
    text.push_str("i 0 L\n");
    assert_eq!(parse_output(&input, &text).err(), Some("Too many moves".to_string()));
}

#[test]
fn solution_text_round_trip() {
    let input = small();
    let out = empty_output(&input, vec![1, 0], vec![('g', 1, 3), ('i', 0, 1), ('g', 0, 2)]);
    let text = out.to_text();
    assert_eq!(text, "00\n10\n00\n000\n010\n1 0\ng 1 R\ni 0 D\ng 0 L\n");
    let back = parse_output(&input, &text).unwrap();
    assert_eq!(back.wall_v, out.wall_v);
    assert_eq!(back.wall_h, out.wall_h);
    assert_eq!(back.group, out.group);
    assert_eq!(back.out, out.out);
}

#[test]
fn score_of_single_moves() {
    let input = small();
    // robot 0 goes right twice; robot 1 goes up, then left
    let out = empty_output(&input, vec![0, 1], vec![('i', 0, 3), ('i', 0, 3), ('i', 1, 0), ('i', 1, 2)]);
    let (score, err) = compute_score(&input, &out);
    assert_eq!(err, "");
    // both robots end on their targets
    assert_eq!(score, 4);
    let (_, _, pos) = compute_score_details(&input, &out, 2);
    assert_eq!(pos, vec![(0, 2), (2, 2)]);
}

#[test]
fn walls_and_robots_block_moves() {
    let input = small();
    // robot 0 stops at the wall right of (1, 0); robot 1 cannot go up from (2, 1) through
    // the wall below (1, 1)
    let out = empty_output(&input, vec![0, 1], vec![('i', 0, 1), ('i', 0, 3), ('i', 1, 2), ('i', 1, 0)]);
    let (_, _, pos) = compute_score_details(&input, &out, 4);
    assert_eq!(pos, vec![(1, 0), (2, 1)]);
    let (score, _) = compute_score(&input, &out);
    assert_eq!(score, 4 + 100 * (1 + 2) + 100 * 1);
}

#[test]
fn judge_group_moves_front_first() {
    let input = parse_input("3 2\n0 0 0 1\n0 1 0 2\n00\n00\n00\n000\n000\n");
    let out = empty_output(&input, vec![0, 0], vec![('g', 0, 3)]);
    let (_, _, pos) = compute_score_details(&input, &out, 1);
    assert_eq!(pos, vec![(0, 1), (0, 2)]);
    assert_eq!(compute_score(&input, &out).0, 1);
    let back = empty_output(&input, vec![0, 0], vec![('g', 0, 2)]);
    let (_, _, pos) = compute_score_details(&input, &back, 1);
    assert_eq!(pos, vec![(0, 0), (0, 1)]);
}

#[test]
fn set_min_max() {
    let mut a: i64 = 5;
    assert!(a.setmin(3));
    assert_eq!(a, 3);
    assert!(!a.setmin(4));
    assert!(a.setmax(9));
    assert_eq!(a, 9);
    let mut b: usize = 2;
    assert!(!b.setmax(2));
    assert!(b.setmin(0));
    assert_eq!(b, 0);
}

#[test]
fn judge_marks_cells_as_it_moves_robots() {
    // robots 0 and 1 start on the same cell; once robot 0 leaves it the cell is free for
    // robot 2
    let input = Input {
        N: 3,
        K: 3,
        W: 0,
        ss: vec![(0, 0), (0, 0), (0, 1)],
        ts: vec![(0, 0), (0, 0), (0, 1)],
        wall_v: vec![vec![false; 2]; 3],
        wall_h: vec![vec![false; 3]; 2],
    };
    assert!(!input.check());
    let out = empty_output(&input, vec![0, 1, 2], vec![('i', 0, 1), ('i', 2, 2)]);
    let (score, err, pos) = compute_score_details(&input, &out, 2);
    assert_eq!(err, "");
    assert_eq!(pos, vec![(1, 0), (0, 0), (0, 0)]);
    assert_eq!(score, 2 + 100 * (1 + 1));
}

#[test]
fn judge_handles_wide_boards() {
    let n = 1200;
    let input = Input {
        N: n,
        K: 1,
        W: 0,
        ss: vec![(0, 0)],
        ts: vec![(n - 1, n - 1)],
        wall_v: vec![vec![false; n - 1]; n],
        wall_h: vec![vec![false; n]; n - 1],
    };
    let out = empty_output(&input, vec![0], vec![('i', 0, 1), ('i', 0, 3)]);
    let (score, err) = compute_score(&input, &out);
    assert_eq!(err, "");
    assert_eq!(score, 2 + 100 * ((n as i64 - 2) + (n as i64 - 2)));
    let text = "0".repeat(n - 1);
    let mut solution = String::new();
    for _ in 0..n {
        solution.push_str(&text);
        solution.push('\n');
    }
    for _ in 0..n - 1 {
        solution.push_str(&"0".repeat(n));
        solution.push('\n');
    }
    solution.push_str("0\ni 0 D\n");
    let parsed = parse_output(&input, &solution).unwrap();
    assert_eq!(parsed.group, vec![0]);
    assert_eq!(parsed.out, vec![('i', 0, 1)]);
}
