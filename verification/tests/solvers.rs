use rand_pcg::Pcg64Mcg;
use robot_grid::generator::gen;
use robot_grid::grid::{Coord, D, L, R, U};
use robot_grid::problem::{Action, Input, Move};
use robot_grid::solver::anneling::{
    self, initial_state, skip_over, AddActionNeigh, Neighbor, SwapPermNeigh, ToggleWall, MAX_GROUP,
};
use robot_grid::solver::clustering::{self, MoveCluster};
use robot_grid::solver::naive::{identity_order, solve_greedy, solve_greedy_with_order};
use robot_grid::solver::naive_fast;
use robot_grid::solver::rand_greedy::{finish, group_phase, move_group, prepare};
use robot_grid::tools;

fn open_instance(ss: Vec<(usize, usize)>, ts: Vec<(usize, usize)>) -> tools::Input {
    tools::Input {
        N: 30,
        K: ss.len(),
        W: 0,
        ss,
        ts,
        wall_v: vec![vec![false; 29]; 30],
        wall_h: vec![vec![false; 30]; 29],
    }
}

fn judged(inst: &tools::Input, out: &robot_grid::problem::Output) -> i64 {
    let jo = out.to_judge();
    let (score, err) = tools::compute_score(inst, &jo);
    assert_eq!(err, "");
    score
}

#[test]
fn greedy_moves_a_single_robot_home() {
    let inst = open_instance(vec![(0, 0)], vec![(0, 3)]);
    let input = Input::from_instance(&inst).unwrap();
    let out = solve_greedy_with_order(&input, &vec![0]);
    assert_eq!(out.actions.len(), 3);
    assert!(out.actions.iter().all(|a| *a == Action::Robot(Move::new(0, R))));
    assert_eq!(out.score, 3);
    assert_eq!(out.groups, vec![0]);
    assert_eq!(judged(&inst, &out), 3);
}

#[test]
fn greedy_score_matches_the_judge() {
    for seed in 0..3u64 {
        let inst = gen(seed, None, None);
        let input = Input::from_instance(&inst).unwrap();
        let out = solve_greedy_with_order(&input, &identity_order(input.robot_count));
        assert_eq!(judged(&inst, &out), out.score as i64);
        let mut rng = Pcg64Mcg::new(seed as u128);
        let out = solve_greedy(&input, &mut rng);
        assert_eq!(judged(&inst, &out), out.score as i64);
    }
}

#[test]
fn greedy_with_a_blocked_robot() {
    // robot 0 is walled in at the corner and cannot move at all
    let mut inst = open_instance(vec![(0, 0), (2, 2)], vec![(0, 5), (2, 4)]);
    inst.wall_v[0][0] = true;
    inst.wall_h[0][0] = true;
    let input = Input::from_instance(&inst).unwrap();
    let out = solve_greedy_with_order(&input, &vec![0, 1]);
    assert_eq!(out.actions.len(), 2);
    assert_eq!(out.score, 2 + 100 * 5);
    assert_eq!(judged(&inst, &out), out.score as i64);
}

#[test]
fn greedy_takes_a_shortest_way_around_walls_and_robots() {
    let mut inst = open_instance(vec![(0, 0)], vec![(0, 2)]);
    inst.wall_v[0][0] = true;
    let input = Input::from_instance(&inst).unwrap();
    let out = solve_greedy_with_order(&input, &vec![0]);
    assert_eq!(out.actions.len(), 4);
    assert_eq!(out.score, 4);
    let inst = open_instance(vec![(0, 0), (0, 1)], vec![(0, 2), (0, 1)]);
    let input = Input::from_instance(&inst).unwrap();
    let out = solve_greedy_with_order(&input, &vec![0, 1]);
    assert_eq!(out.actions.len(), 4);
    assert!(out.actions.iter().all(|a| matches!(a, Action::Robot(m) if m.index == 0)));
    assert_eq!(judged(&inst, &out), 4);
}

#[test]
fn fast_greedy_counts_moves_and_leftover() {
    let inst = open_instance(vec![(0, 0)], vec![(0, 3)]);
    let input = Input::from_instance(&inst).unwrap();
    assert_eq!(naive_fast::solve_greedy(&input, &[0]), (3, 0));
    let inst = open_instance(vec![(0, 0), (0, 1)], vec![(0, 2), (5, 5)]);
    let input = Input::from_instance(&inst).unwrap();
    assert_eq!(naive_fast::solve_greedy(&input, &[0, 1]), (4 + 9, 0));
    let mut inst = open_instance(vec![(0, 0), (2, 2)], vec![(0, 5), (2, 4)]);
    inst.wall_v[0][0] = true;
    inst.wall_h[0][0] = true;
    let input = Input::from_instance(&inst).unwrap();
    assert_eq!(naive_fast::solve_greedy(&input, &[0, 1]), (2, 5));
}

#[test]
fn bit_search_distances() {
    let free = vec![0xC000_0000u32; 30];
    let no_walls = vec![0u32; 30];
    assert_eq!(naive_fast::find_dist(Coord::new(0, 0), Coord::new(0, 3), &free, &no_walls, &no_walls), Some(3));
    assert_eq!(naive_fast::find_dist(Coord::new(0, 0), Coord::new(29, 29), &free, &no_walls, &no_walls), Some(58));
    let mut occupied = free.clone();
    occupied[0] |= 1 << 3;
    assert_eq!(naive_fast::find_dist(Coord::new(0, 0), Coord::new(0, 3), &occupied, &no_walls, &no_walls), None);
    let mut occupied = free.clone();
    occupied[0] |= 1 << 1;
    assert_eq!(naive_fast::find_dist(Coord::new(0, 0), Coord::new(0, 3), &occupied, &no_walls, &no_walls), Some(5));
    let mut walls_v = no_walls.clone();
    let mut walls_h = no_walls.clone();
    walls_v[0] |= 1;
    walls_h[0] |= 1;
    assert_eq!(naive_fast::find_dist(Coord::new(0, 0), Coord::new(0, 3), &free, &walls_v, &walls_h), None);
}

#[test]
fn solver_group_moves_front_first() {
    let inst = open_instance(vec![(0, 0), (0, 1), (5, 5)], vec![(0, 0), (0, 1), (5, 5)]);
    let mut input = Input::from_instance(&inst).unwrap();
    let groups = vec![0, 0, 1];
    assert!(move_group(&mut input, &groups, 0, R));
    assert_eq!(input.init_robots, vec![Coord::new(0, 1), Coord::new(0, 2), Coord::new(5, 5)]);
    assert!(move_group(&mut input, &groups, 0, L));
    assert_eq!(input.init_robots, vec![Coord::new(0, 0), Coord::new(0, 1), Coord::new(5, 5)]);
    assert!(move_group(&mut input, &groups, 0, L));
    assert_eq!(input.init_robots, vec![Coord::new(0, 0), Coord::new(0, 1), Coord::new(5, 5)]);
    assert!(!move_group(&mut input, &groups, 3, D));
    assert_eq!(input.init_robots, vec![Coord::new(0, 0), Coord::new(0, 1), Coord::new(5, 5)]);
}

#[test]
fn group_phase_keeps_moves_of_groups_with_robots() {
    let inst = open_instance(vec![(0, 0), (0, 1), (5, 5)], vec![(0, 0), (0, 1), (5, 5)]);
    let mut input = Input::from_instance(&inst).unwrap();
    let groups = vec![0, 0, 1];
    let moves = vec![Move::new(0, D), Move::new(3, U), Move::new(1, U)];
    let actions = group_phase(&mut input, &groups, &moves);
    assert_eq!(actions, vec![Action::Group(Move::new(0, D)), Action::Group(Move::new(1, U))]);
    assert_eq!(input.init_robots, vec![Coord::new(1, 0), Coord::new(1, 1), Coord::new(4, 5)]);
}

#[test]
fn random_groups_then_greedy_is_judged_alike() {
    let inst = gen(11, None, None);
    let input = Input::from_instance(&inst).unwrap();
    let mut rng = Pcg64Mcg::new(42);
    let (working, groups, group_actions) = prepare(&input, &mut rng);
    assert_eq!(groups.len(), input.robot_count);
    assert!(groups.iter().all(|&g| g < 10));
    assert!(group_actions.len() <= 30);
    let count = group_actions.len();
    let robots = solve_greedy(&working, &mut rng);
    let out = finish(&input, groups, group_actions, robots);
    assert_eq!(judged(&inst, &out), out.score as i64 + count as i64);
}

#[test]
fn annealing_state_scores_like_the_judge() {
    let inst = gen(5, None, None);
    let input = Input::from_instance(&inst).unwrap();
    let env = anneling::Env::new(input.copy(), MAX_GROUP);
    let mut state = initial_state(&env);
    assert_eq!(state.perm, identity_order(input.robot_count));
    assert!(state.groups.iter().enumerate().all(|(i, &g)| g == i % MAX_GROUP));
    let score = state.score(&env);
    assert_eq!(judged(&inst, &state.to_output(&input)), score as i64);
    let mut add = AddActionNeigh { index: 0, mv: Move::new(1, D) };
    add.preprocess(&env, &mut state);
    let mut add2 = AddActionNeigh { index: 1, mv: Move::new(0, L) };
    add2.preprocess(&env, &mut state);
    assert_eq!(state.group_actions, vec![Move::new(1, D), Move::new(0, L)]);
    let out = state.to_output(&input);
    assert_eq!(out.actions[0], Action::Group(Move::new(1, D)));
    assert_eq!(out.actions[1], Action::Group(Move::new(0, L)));
    assert_eq!(judged(&inst, &out), state.score(&env) as i64);
    add2.rollback(&env, &mut state);
    add.rollback(&env, &mut state);
    assert!(state.group_actions.is_empty());
    assert_eq!(state.score(&env), score);
}

#[test]
fn neighbors_roll_back() {
    let inst = gen(9, None, None);
    let input = Input::from_instance(&inst).unwrap();
    let env = anneling::Env::new(input, MAX_GROUP);
    let mut state = initial_state(&env);
    let mut rng = Pcg64Mcg::new(7);
    for _ in 0..200 {
        let perm = state.perm.clone();
        let groups = state.groups.clone();
        let actions = state.group_actions.clone();
        let walls_v = state.wall_v.map.clone();
        let walls_h = state.wall_h.map.clone();
        if let Some(mut n) = Neighbor::generate(&env, &state, &mut rng) {
            n.preprocess(&env, &mut state);
            n.rollback(&env, &mut state);
            assert_eq!(state.perm, perm);
            assert_eq!(state.groups, groups);
            assert_eq!(state.group_actions, actions);
            assert_eq!(state.wall_v.map, walls_v);
            assert_eq!(state.wall_h.map, walls_h);
            n.preprocess(&env, &mut state);
            n.postprocess(&env, &mut state);
        }
    }
    let mut sorted = state.perm.clone();
    sorted.sort();
    assert_eq!(sorted, identity_order(env.input.robot_count));
    assert!(state.groups.iter().all(|&g| g < MAX_GROUP));
    assert!(state.group_actions.iter().all(|m| m.index < MAX_GROUP && m.direction < 4));
}

#[test]
fn swap_and_toggle_are_their_own_inverse() {
    let inst = gen(2, None, None);
    let input = Input::from_instance(&inst).unwrap();
    let env = anneling::Env::new(input, MAX_GROUP);
    let mut state = initial_state(&env);
    let mut swap = SwapPermNeigh { index0: 0, index1: 3 };
    swap.preprocess(&env, &mut state);
    assert_eq!(state.perm[0], 3);
    assert_eq!(state.perm[3], 0);
    swap.rollback(&env, &mut state);
    assert_eq!(state.perm, identity_order(env.input.robot_count));
    let c = Coord::new(4, 7);
    let before = *state.wall_v.get(c);
    let mut toggle = ToggleWall { coord: c, is_vertical: true };
    toggle.preprocess(&env, &mut state);
    assert_eq!(*state.wall_v.get(c), !before);
    toggle.rollback(&env, &mut state);
    assert_eq!(*state.wall_v.get(c), before);
    let mut rng = Pcg64Mcg::new(5);
    for _ in 0..50 {
        let t = ToggleWall::generate(&env, &state, &mut rng).unwrap();
        if t.is_vertical {
            assert!(t.coord.col < 29);
            assert!(!*state.wall_v.get(t.coord));
        } else {
            assert!(t.coord.row < 29);
            assert!(!*state.wall_h.get(t.coord));
        }
    }
}

#[test]
fn clusters_move_and_roll_back() {
    let inst = open_instance(vec![(0, 0), (0, 1), (5, 5), (7, 7)], vec![(0, 0), (0, 1), (5, 5), (7, 7)]);
    let input = Input::from_instance(&inst).unwrap();
    let env = clustering::Env::new(input, 3);
    let mut state = clustering::State::new(&env);
    assert_eq!(state.cluster_ids, vec![0, 0, 0, 0]);
    assert!(state.has_empty_cluster(&env));
    let mut first = state.cluster_lists(&env)[0].clone();
    first.sort();
    assert_eq!(first, vec![0, 1, 2, 3]);
    let mut m = MoveCluster { robot: 2, from: 0, to: 1 };
    m.preprocess(&env, &mut state);
    assert_eq!(state.cluster_ids, vec![0, 0, 1, 0]);
    assert_eq!(state.cluster_lists(&env)[1], vec![2]);
    assert!(!state.clusters[0].contains(2));
    let mut m2 = MoveCluster { robot: 3, from: 0, to: 2 };
    m2.preprocess(&env, &mut state);
    assert!(!state.has_empty_cluster(&env));
    m2.rollback(&env, &mut state);
    m.rollback(&env, &mut state);
    assert_eq!(state.cluster_ids, vec![0, 0, 0, 0]);
    let mut first = state.cluster_lists(&env)[0].clone();
    first.sort();
    assert_eq!(first, vec![0, 1, 2, 3]);
    assert!(state.cluster_lists(&env)[1].is_empty());
}

#[test]
fn cluster_moves_drawn_at_random() {
    let inst = gen(4, None, None);
    let input = Input::from_instance(&inst).unwrap();
    let env = clustering::Env::new(input, 4);
    let mut state = clustering::State::new(&env);
    let mut rng = Pcg64Mcg::new(3);
    for _ in 0..100 {
        let m = MoveCluster::generate(&env, &state, &mut rng).unwrap();
        assert_eq!(m.from, state.cluster_ids[m.robot]);
        assert_ne!(m.to, m.from);
        assert!(m.to < 4);
        let mut m = m;
        m.preprocess(&env, &mut state);
        m.postprocess(&env, &mut state);
    }
    let lists = state.cluster_lists(&env);
    let total: usize = lists.iter().map(|l| l.len()).sum();
    assert_eq!(total, env.input.robot_count);
    for (c, list) in lists.iter().enumerate() {
        for &r in list {
            assert_eq!(state.cluster_ids[r], c);
        }
    }
}

#[test]
fn neighbor_kinds_give_their_change() {
    let inst = gen(9, None, None);
    let input = Input::from_instance(&inst).unwrap();
    let env = anneling::Env::new(input, MAX_GROUP);
    let mut state = initial_state(&env);
    let mut rng = Pcg64Mcg::new(3);
    // no group move yet: removing or exchanging group moves has nothing to work on
    assert!(matches!(Neighbor::of_kind(0, &env, &state, &mut rng), Some(Neighbor::AddAction(_))));
    assert!(Neighbor::of_kind(1, &env, &state, &mut rng).is_none());
    assert!(matches!(Neighbor::of_kind(2, &env, &state, &mut rng), Some(Neighbor::ChangeGroup(_))));
    assert!(matches!(Neighbor::of_kind(3, &env, &state, &mut rng), Some(Neighbor::SwapPerm(_))));
    assert!(Neighbor::of_kind(4, &env, &state, &mut rng).is_none());
    state.group_actions.push(Move::new(0, U));
    assert!(matches!(Neighbor::of_kind(1, &env, &state, &mut rng), Some(Neighbor::RemoveAction(_))));
    assert!(Neighbor::of_kind(4, &env, &state, &mut rng).is_none());
    state.group_actions.push(Move::new(1, D));
    assert!(matches!(Neighbor::of_kind(4, &env, &state, &mut rng), Some(Neighbor::SwapActionOrder(_))));
}

#[test]
fn skipping_a_value() {
    assert_eq!(skip_over(0, 2), 0);
    assert_eq!(skip_over(1, 2), 1);
    assert_eq!(skip_over(2, 2), 3);
    assert_eq!(skip_over(4, 0), 5);
}

#[test]
fn toggle_wall_finds_the_last_free_place() {
    let inst = gen(9, None, Some(0));
    let input = Input::from_instance(&inst).unwrap();
    let env = anneling::Env::new(input, MAX_GROUP);
    let mut state = initial_state(&env);
    // every place holds a wall but the one right of (17, 3)
    for r in 0..30 {
        for c in 0..30 {
            state.wall_v.map[r * 30 + c] = !(r == 17 && c == 3);
            state.wall_h.map[r * 30 + c] = true;
        }
    }
    let mut rng = Pcg64Mcg::new(1);
    for _ in 0..5 {
        let t = ToggleWall::generate(&env, &state, &mut rng).unwrap();
        assert!(t.is_vertical);
        assert_eq!(t.coord, Coord::new(17, 3));
    }
}
