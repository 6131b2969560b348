use robot_grid::generator::gen;
use robot_grid::grid::{Coord, Map2d, D, L, R, U};
use robot_grid::problem::{Action, Input, Move, Output};
use robot_grid::solver::naive::build_graph;
use robot_grid::tools;

fn open_instance(ss: Vec<(usize, usize)>, ts: Vec<(usize, usize)>) -> tools::Input {
    tools::Input {
        N: 30,
        K: ss.len(),
        W: 0,
        ss,
        ts,
        wall_v: vec![vec![false; 29]; 30],
        wall_h: vec![vec![false; 30]; 29],
    }
}

#[test]
fn generated_instances_are_well_formed() {
    for seed in 0..5u64 {
        let input = gen(seed, None, None);
        assert_eq!(input.N, 30);
        assert!(10 <= input.K && input.K <= 100);
        assert!(input.W <= 2);
        assert!(input.check());
        for i in 0..input.K {
            for j in 0..input.K {
                if i != j {
                    assert_ne!(input.ts[i], input.ts[j]);
                }
            }
        }
    }
}

#[test]
fn generator_honours_fixed_counts() {
    let input = gen(7, Some(5), Some(0));
    assert_eq!(input.K, 5);
    assert_eq!(input.W, 0);
    assert_eq!(input.wall_v, vec![vec![false; 29]; 30]);
    assert_eq!(input.wall_h, vec![vec![false; 30]; 29]);
    let input = gen(7, Some(12), Some(2));
    assert_eq!(input.K, 12);
    assert_eq!(input.W, 2);
    assert!(input.check());
}

#[test]
fn generated_board_is_connected() {
    let input = gen(3, None, Some(2));
    let n = input.N;
    let mut seen = vec![vec![false; n]; n];
    let mut stack = vec![(0usize, 0usize)];
    seen[0][0] = true;
    let mut count = 0;
    while let Some((x, y)) = stack.pop() {
        count += 1;
        let mut next = vec![];
        if x > 0 && !input.wall_h[x - 1][y] {
            next.push((x - 1, y));
        }
        if x + 1 < n && !input.wall_h[x][y] {
            next.push((x + 1, y));
        }
        if y > 0 && !input.wall_v[x][y - 1] {
            next.push((x, y - 1));
        }
        if y + 1 < n && !input.wall_v[x][y] {
            next.push((x, y + 1));
        }
        for (a, b) in next {
            if !seen[a][b] {
                seen[a][b] = true;
                stack.push((a, b));
            }
        }
    }
    assert_eq!(count, n * n);
}

#[test]
fn instance_from_judge_format() {
    let mut inst = open_instance(vec![(0, 0), (5, 6)], vec![(29, 29), (0, 1)]);
    inst.wall_v[3][4] = true;
    inst.wall_h[7][8] = true;
    let input = Input::from_instance(&inst).unwrap();
    assert_eq!(input.robot_count, 2);
    assert_eq!(input.init_robots, vec![Coord::new(0, 0), Coord::new(5, 6)]);
    assert_eq!(input.destinations, vec![Coord::new(29, 29), Coord::new(0, 1)]);
    assert!(*input.init_walls_v.get(Coord::new(3, 4)));
    assert!(!*input.init_walls_v.get(Coord::new(3, 29)));
    assert!(*input.init_walls_h.get(Coord::new(7, 8)));
    assert!(!*input.init_walls_h.get(Coord::new(29, 8)));
    assert_eq!(*input.robot_maps.get(Coord::new(5, 6)), Some(1));
    assert_eq!(*input.robot_maps.get(Coord::new(0, 1)), None);
    assert_eq!(input.init_graph.get(Coord::new(3, 4))[R], None);
    assert_eq!(input.init_graph.get(Coord::new(3, 5))[L], None);
    assert_eq!(input.init_graph.get(Coord::new(7, 8))[D], None);
    assert_eq!(input.init_graph.get(Coord::new(7, 8))[U], Some(Coord::new(6, 8)));
}

#[test]
fn other_board_sizes_are_refused() {
    let inst = tools::parse_input("3 1\n0 0 0 2\n00\n00\n00\n000\n000\n");
    assert!(Input::from_instance(&inst).is_none());
}

#[test]
fn graph_of_an_open_board() {
    let walls_v: Map2d<bool> = Map2d::filled(false);
    let walls_h: Map2d<bool> = Map2d::filled(false);
    let graph = build_graph(&walls_v, &walls_h);
    let corner = graph.get(Coord::new(0, 0));
    assert_eq!(corner[U], None);
    assert_eq!(corner[L], None);
    assert_eq!(corner[R], Some(Coord::new(0, 1)));
    assert_eq!(corner[D], Some(Coord::new(1, 0)));
    let far = graph.get(Coord::new(29, 29));
    assert_eq!(far[D], None);
    assert_eq!(far[R], None);
    assert_eq!(far[U], Some(Coord::new(28, 29)));
}

#[test]
fn graph_respects_walls() {
    let mut walls_v: Map2d<bool> = Map2d::filled(false);
    let mut walls_h: Map2d<bool> = Map2d::filled(false);
    walls_v.set(Coord::new(4, 4), true);
    walls_h.set(Coord::new(4, 4), true);
    let graph = build_graph(&walls_v, &walls_h);
    assert_eq!(graph.get(Coord::new(4, 4))[R], None);
    assert_eq!(graph.get(Coord::new(4, 5))[L], None);
    assert_eq!(graph.get(Coord::new(4, 4))[D], None);
    assert_eq!(graph.get(Coord::new(5, 4))[U], None);
    assert_eq!(graph.get(Coord::new(4, 4))[U], Some(Coord::new(3, 4)));
}

#[test]
fn move_robots_blocks_on_robots() {
    let inst = open_instance(vec![(0, 0), (0, 1), (5, 5)], vec![(0, 0), (0, 1), (5, 5)]);
    let mut input = Input::from_instance(&inst).unwrap();
    input.move_robots(&vec![0, 1], R);
    assert_eq!(input.init_robots, vec![Coord::new(0, 0), Coord::new(0, 2), Coord::new(5, 5)]);
    input.move_robots(&vec![0, 2], U);
    assert_eq!(input.init_robots, vec![Coord::new(0, 0), Coord::new(0, 2), Coord::new(4, 5)]);
    assert_eq!(*input.robot_maps.get(Coord::new(4, 5)), Some(2));
    assert_eq!(*input.robot_maps.get(Coord::new(5, 5)), None);
}

#[test]
fn better_output_and_initial() {
    let inst = open_instance(vec![(0, 0), (1, 1)], vec![(0, 0), (1, 1)]);
    let input = Input::from_instance(&inst).unwrap();
    let initial = Output::initial(&input);
    assert_eq!(initial.score(), u32::MAX);
    assert_eq!(initial.groups, vec![0, 1]);
    assert!(initial.actions.is_empty());
    let candidate = Output::new(
        input.init_walls_v.copy(),
        input.init_walls_h.copy(),
        vec![0, 0],
        vec![Action::Robot(Move::new(1, U))],
        7,
    );
    let (best, improved) = Output::better(initial, candidate);
    assert!(improved);
    assert_eq!(best.score(), 7);
    let worse = Output::new(input.init_walls_v.copy(), input.init_walls_h.copy(), vec![0, 1], vec![], 9);
    let (best, improved) = Output::better(best, worse);
    assert!(!improved);
    assert_eq!(best.score(), 7);
    assert_eq!(best.groups, vec![0, 0]);
}

/// The runs of consecutive wall places along each line of a board.
fn runs(lines: &Vec<Vec<bool>>) -> Vec<(usize, usize, usize)> {
    let mut found = vec![];
    for (i, line) in lines.iter().enumerate() {
        let mut j = 0;
        while j < line.len() {
            if line[j] {
                let start = j;
                while j < line.len() && line[j] {
                    j += 1;
                }
                found.push((i, start, j - start));
            } else {
                j += 1;
            }
        }
    }
    found
}

#[test]
fn generated_walls_are_long_walls() {
    for seed in 0..20u64 {
        let input = gen(seed, None, Some(2));
        // vertical walls run down a column, horizontal ones along a row
        let mut columns = vec![vec![false; 30]; 29];
        for i in 0..30 {
            for j in 0..29 {
                columns[j][i] = input.wall_v[i][j];
            }
        }
        let vertical = runs(&columns);
        let horizontal = runs(&input.wall_h);
        assert!(vertical.len() + horizontal.len() <= 2);
        for &(_, _, l) in vertical.iter().chain(horizontal.iter()) {
            assert!(l <= 20);
        }
        if vertical.len() == 2 {
            assert!(vertical[0].0.abs_diff(vertical[1].0) >= 5);
        }
        if horizontal.len() == 2 {
            assert!(horizontal[0].0.abs_diff(horizontal[1].0) >= 5);
        }
    }
}
