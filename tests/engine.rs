use rand::rngs::StdRng;
use rand::seq::SliceRandom;
use rand::SeedableRng;
use rudoku::board::Sudoku;
use rudoku::generate::{generate_with, GIVENS};
use rudoku::input::InputError;
use rudoku::topology::peers;

fn all_cells() -> Vec<(usize, usize)> {
    let mut v = Vec::new();
    for x in 0..9 {
        for y in 0..9 {
            v.push((x, y));
        }
    }
    v
}

fn snapshot(s: &Sudoku) -> Vec<(Option<u8>, u8)> {
    all_cells().into_iter().map(|c| (s.get(c), s.domain_size(c))).collect()
}

fn filled(s: &Sudoku) -> usize {
    all_cells().into_iter().filter(|&c| s.get(c).is_some()).count()
}

fn no_peer_duplicates(s: &Sudoku) -> bool {
    all_cells().into_iter().all(|c| match s.get(c) {
        None => true,
        Some(v) => peers(c).into_iter().all(|p| s.get(p) != Some(v)),
    })
}

fn each_group_has_every_value(s: &Sudoku) -> bool {
    let mut groups: Vec<Vec<(usize, usize)>> = Vec::new();
    for i in 0..9 {
        groups.push((0..9).map(|j| (i, j)).collect());
        groups.push((0..9).map(|j| (j, i)).collect());
        groups.push((0..9).map(|j| ((i / 3) * 3 + j / 3, (i % 3) * 3 + j % 3)).collect());
    }
    groups.iter().all(|g| {
        let mut vals: Vec<u8> = g.iter().map(|&c| s.get(c).unwrap_or(0)).collect();
        vals.sort();
        vals == (1..=9).collect::<Vec<u8>>()
    })
}

fn seeded_orders(seed: u64) -> (Vec<(usize, usize)>, Vec<Vec<u8>>) {
    let mut rng = StdRng::seed_from_u64(seed);
    let mut cells = all_cells();
    cells.shuffle(&mut rng);
    let mut vals: Vec<u8> = (1..=9).collect();
    let mut orders = Vec::new();
    for _ in 0..GIVENS {
        vals.shuffle(&mut rng);
        orders.push(vals.clone());
    }
    (cells, orders)
}

#[test]
fn peers_are_twenty_distinct_cells() {
    for c in all_cells() {
        let ps = peers(c);
        assert_eq!(ps.len(), 20);
        assert!(!ps.contains(&c));
        for (i, p) in ps.iter().enumerate() {
            assert!(!ps[i + 1..].contains(p));
            let shares = p.0 == c.0 || p.1 == c.1 || (p.0 / 3 == c.0 / 3 && p.1 / 3 == c.1 / 3);
            assert!(shares);
        }
    }
}

#[test]
fn peers_of_center_in_order() {
    let ps = peers((4, 4));
    assert_eq!(ps[0], (0, 4));
    assert_eq!(ps[7], (8, 4));
    assert_eq!(ps[8], (4, 0));
    assert_eq!(ps[15], (4, 8));
    assert_eq!(&ps[16..], &[(3, 3), (3, 5), (5, 3), (5, 5)]);
}

#[test]
fn collapse_then_decollapse_scenario() {
    let mut s = Sudoku::empty();
    let token = s.collapse((0, 0), 5);
    assert!(s.has_peer_with_value((0, 1), 5));
    assert!(!s.has_peer_with_value((8, 8), 5));
    s.decollapse((0, 0), &token);
    assert_eq!(s.get((0, 0)), None);
    assert!(!s.has_peer_with_value((0, 1), 5));
}

#[test]
fn collapse_token_lists_peers_that_lost_the_value() {
    let mut s = Sudoku::empty();
    let first = s.collapse((0, 0), 5);
    assert_eq!(first.len(), 20);
    let second = s.collapse((0, 4), 5);
    // the rest of line 0 already lost 5 to (0, 0), except (0, 0) itself,
    // whose own mask is never touched by its collapse
    assert_eq!(second.len(), 13);
    assert!(second.contains(&(0, 0)));
    assert!(!second.contains(&(0, 1)));
    assert!(second.contains(&(8, 4)));
}

#[test]
fn round_trip_restores_everything() {
    let mut s = Sudoku::empty();
    s.collapse((0, 0), 1);
    s.collapse((4, 4), 2);
    let before = snapshot(&s);
    let token = s.collapse((1, 2), 3);
    assert_ne!(snapshot(&s), before);
    s.decollapse((1, 2), &token);
    assert_eq!(snapshot(&s), before);
}

#[test]
fn collapse_makes_every_peer_see_the_value() {
    let mut s = Sudoku::empty();
    s.collapse((7, 2), 4);
    let token = s.collapse((3, 6), 9);
    for p in peers((3, 6)) {
        assert!(s.has_peer_with_value(p, 9));
    }
    s.decollapse((3, 6), &token);
    for p in peers((3, 6)) {
        assert!(!s.has_peer_with_value(p, 9));
    }
    assert!(s.has_peer_with_value((7, 0), 4));
}

#[test]
fn domain_sizes_follow_collapse() {
    let mut s = Sudoku::empty();
    assert_eq!(s.domain_size((0, 1)), 9);
    s.collapse((0, 0), 5);
    assert_eq!(s.domain_size((0, 1)), 8);
    assert_eq!(s.domain_size((8, 8)), 9);
    assert!(!s.has_candidate_at((0, 1), 5));
    assert!(s.has_candidate_at((0, 1), 6));
    assert!(s.has_candidate_at((8, 8), 5));
}

#[test]
fn select_next_on_empty_board_is_first_cell() {
    let s = Sudoku::empty();
    assert_eq!(s.select_next(), Some((0, 0)));
}

#[test]
fn select_next_prefers_fewest_candidates_then_first() {
    let mut s = Sudoku::empty();
    s.collapse((0, 0), 1);
    // every peer of (0, 0) now has 8 candidates; (0, 1) is the first of them
    assert_eq!(s.select_next(), Some((0, 1)));
    s.collapse((8, 8), 2);
    s.collapse((0, 8), 3);
    // (0, 1..7) lost both 1 and 3; (0, 1) still comes first among them
    assert_eq!(s.domain_size((0, 1)), 7);
    assert_eq!(s.select_next(), Some((0, 1)));
    s.collapse((4, 8), 4);
    // (1, 8) has lost 2, 3 and 4; every earlier cell has at least 7 left
    assert_eq!(s.domain_size((1, 8)), 6);
    assert_eq!(s.select_next(), Some((1, 8)));
}

#[test]
fn select_next_is_none_when_complete() {
    let mut s = Sudoku::empty();
    assert!(s.solve());
    assert_eq!(s.select_next(), None);
}

#[test]
fn solve_empty_board() {
    let mut s = Sudoku::empty();
    assert!(s.solve());
    assert_eq!(filled(&s), 81);
    assert!(no_peer_duplicates(&s));
    assert!(each_group_has_every_value(&s));
    // ascending value order gives 1..9 along the first line
    let first: Vec<u8> = (0..9).map(|y| s.get((0, y)).unwrap()).collect();
    assert_eq!(first, (1..=9).collect::<Vec<u8>>());
}

#[test]
fn solve_keeps_givens() {
    let mut s = Sudoku::empty();
    s.collapse((2, 3), 7);
    s.collapse((6, 1), 3);
    assert!(s.solve());
    assert_eq!(s.get((2, 3)), Some(7));
    assert_eq!(s.get((6, 1)), Some(3));
    assert!(each_group_has_every_value(&s));
}

#[test]
fn solve_reports_failure_and_restores_state() {
    let mut s = Sudoku::empty();
    for y in 0..8 {
        s.collapse((0, y), (y + 1) as u8);
    }
    s.collapse((1, 8), 9);
    let before = snapshot(&s);
    assert!(!s.solve());
    assert_eq!(snapshot(&s), before);
}

#[test]
fn solve_on_complete_board_is_true() {
    let mut s = Sudoku::empty();
    assert!(s.solve());
    let before = snapshot(&s);
    assert!(s.solve());
    assert_eq!(snapshot(&s), before);
}

#[test]
fn feasible_restores_state() {
    let mut s = Sudoku::empty();
    s.collapse((0, 0), 1);
    let before = snapshot(&s);
    assert!(s.feasible((5, 5), 2));
    assert_eq!(snapshot(&s), before);
    assert!(!s.feasible((0, 5), 1));
    assert_eq!(snapshot(&s), before);
}

#[test]
fn feasible_sees_past_the_next_cell() {
    let mut s = Sudoku::empty();
    for y in 0..7 {
        s.collapse((0, y), (y + 1) as u8);
    }
    s.collapse((1, 8), 9);
    // (0, 7) and (0, 8) must take 8 and 9; the box blocks 9 at both
    assert!(!s.feasible((0, 7), 8));
    assert!(!s.feasible((0, 8), 8));
}

#[test]
fn generator_with_fixed_seed_fills_twenty_one_cells() {
    let (cells, orders) = seeded_orders(7);
    let s = generate_with(&cells, &orders);
    assert_eq!(filled(&s), 21);
    assert!(no_peer_duplicates(&s));
    for c in all_cells() {
        if s.get(c).is_some() {
            assert!(cells[..GIVENS].contains(&c));
        }
    }
}

#[test]
fn generated_board_is_solved() {
    for seed in [7u64] {
        let (cells, orders) = seeded_orders(seed);
        let mut s = generate_with(&cells, &orders);
        let givens: Vec<_> = all_cells().into_iter().filter_map(|c| s.get(c).map(|v| (c, v))).collect();
        assert!(s.solve());
        assert!(each_group_has_every_value(&s));
        for (c, v) in givens {
            assert_eq!(s.get(c), Some(v));
        }
    }
}

#[test]
fn generator_takes_first_feasible_value_of_each_order() {
    let cells = all_cells();
    let orders: Vec<Vec<u8>> = (0..GIVENS).map(|_| (1..=9).collect()).collect();
    let s = generate_with(&cells, &orders);
    let first: Vec<u8> = (0..9).map(|y| s.get((0, y)).unwrap()).collect();
    assert_eq!(first, (1..=9).collect::<Vec<u8>>());
    assert_eq!(s.get((1, 0)), Some(4));
    assert_eq!(s.get((2, 3)), None);
}

#[test]
fn new_puzzle_is_consistent_and_shuffled() {
    let s = Sudoku::new();
    assert_eq!(filled(&s), GIVENS);
    assert!(no_peer_duplicates(&s));
    // without the shuffle the givens would be exactly the first cells in row-major order
    let leading: Vec<(usize, usize)> = all_cells().into_iter().take(GIVENS).collect();
    assert!(!leading.iter().all(|&c| s.get(c).is_some()));
}

#[test]
fn place_checks_input() {
    let mut s = Sudoku::empty();
    assert_eq!(s.place((9, 0), 1), Err(InputError::InvalidCoordinate));
    assert_eq!(s.place((0, 12), 1), Err(InputError::InvalidCoordinate));
    assert_eq!(s.place((0, 0), 0), Err(InputError::InvalidValue));
    assert_eq!(s.place((0, 0), 10), Err(InputError::InvalidValue));
    assert_eq!(s.place((0, 0), 3), Ok(true));
    assert_eq!(s.get((0, 0)), Some(3));
    assert_eq!(s.place((0, 0), 4), Ok(false));
    assert_eq!(s.get((0, 0)), Some(3));
    assert_eq!(s.place((0, 1), 3), Ok(false));
    assert_eq!(s.get((0, 1)), None);
}

#[test]
fn domains_match_peer_values() {
    let mut s = Sudoku::empty();
    s.collapse((0, 0), 1);
    s.collapse((0, 5), 2);
    s.collapse((4, 1), 3);
    s.collapse((2, 2), 4);
    let t = s.collapse((8, 0), 5);
    s.decollapse((8, 0), &t);
    for c in all_cells() {
        if s.get(c).is_some() {
            continue;
        }
        let mut count = 0u8;
        for v in 1..=9u8 {
            assert_eq!(s.has_candidate_at(c, v), !s.has_peer_with_value(c, v));
            if !s.has_peer_with_value(c, v) {
                count += 1;
            }
        }
        assert_eq!(s.domain_size(c), count);
    }
    assert_eq!(s.domain_size((0, 1)), 5);
}

#[test]
fn generator_leaves_cell_empty_without_fitting_value() {
    let cells = all_cells();
    let orders: Vec<Vec<u8>> = (0..GIVENS).map(|_| vec![1u8]).collect();
    let s = generate_with(&cells, &orders);
    assert_eq!(s.get((0, 0)), Some(1));
    assert_eq!(s.get((0, 1)), None);
    assert_eq!(s.get((1, 3)), Some(1));
    assert_eq!(filled(&s), 2);
}

#[test]
fn solve_on_complete_board_with_conflicts_is_true_and_unchanged() {
    let mut s = Sudoku::empty();
    for c in all_cells() {
        s.collapse(c, 1);
    }
    let before = snapshot(&s);
    assert!(s.solve());
    assert_eq!(snapshot(&s), before);
}

#[test]
fn feasible_when_placement_completes_board_with_conflicts() {
    let mut s = Sudoku::empty();
    for c in all_cells() {
        if c != (8, 8) {
            s.collapse(c, 1);
        }
    }
    let before = snapshot(&s);
    assert!(s.feasible((8, 8), 2));
    assert!(!s.feasible((8, 8), 1));
    assert_eq!(snapshot(&s), before);
}

#[test]
fn place_commits_like_collapse() {
    let mut placed = Sudoku::empty();
    let mut collapsed = Sudoku::empty();
    placed.collapse((4, 4), 6);
    collapsed.collapse((4, 4), 6);
    assert_eq!(placed.place((4, 7), 2), Ok(true));
    collapsed.collapse((4, 7), 2);
    assert_eq!(snapshot(&placed), snapshot(&collapsed));
}

#[test]
fn collapse_token_follows_peer_order() {
    let mut s = Sudoku::empty();
    s.collapse((0, 0), 5);
    let token = s.collapse((4, 4), 5);
    let expected: Vec<(usize, usize)> = peers((4, 4))
        .into_iter()
        .filter(|&p| p != (0, 4) && p != (4, 0))
        .collect();
    assert_eq!(token, expected);
}
