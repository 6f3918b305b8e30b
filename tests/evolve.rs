use quadlife::cache::EvolutionCache;
use quadlife::cell::{next_state, Cell};
use quadlife::grid::side_length;
use quadlife::node::{node_eq, BuildError, Node};
use quadlife::universe::Universe;

fn board(side: usize, alive: &[(usize, usize)]) -> Vec<Cell> {
    let mut v = vec![Cell::Dead; side * side];
    for &(r, c) in alive {
        v[r * side + c] = Cell::Alive;
    }
    v
}

fn step(cells: Vec<Cell>, cache: &mut EvolutionCache) -> Vec<Cell> {
    let node = Node::new(cells).expect("valid board");
    node.evolve(cache)
}

/// Plain next generation: the outer ring kept, every other cell by the rule.
fn plain_step(g: &[Cell], n: usize) -> Vec<Cell> {
    let mut out = g.to_vec();
    for r in 1..n - 1 {
        for c in 1..n - 1 {
            let mut k = 0;
            for dr in 0..3 {
                for dc in 0..3 {
                    if (dr, dc) != (1, 1) && g[(r + dr - 1) * n + c + dc - 1] == Cell::Alive {
                        k += 1;
                    }
                }
            }
            let cur = g[r * n + c];
            out[r * n + c] = if (cur == Cell::Alive && (k == 2 || k == 3)) || (cur == Cell::Dead && k == 3) {
                Cell::Alive
            } else {
                Cell::Dead
            };
        }
    }
    out
}

fn pseudo_random_board(side: usize, seed: u64) -> Vec<Cell> {
    let mut x = seed;
    (0..side * side)
        .map(|_| {
            x = x.wrapping_mul(6364136223846793005).wrapping_add(1442695040888963407);
            if (x >> 33) % 3 == 0 { Cell::Alive } else { Cell::Dead }
        })
        .collect()
}

#[test]
fn block_is_still_life() {
    let mut cache = EvolutionCache::new();
    let g = board(4, &[(1, 1), (1, 2), (2, 1), (2, 2)]);
    assert_eq!(step(g.clone(), &mut cache), g);
}

#[test]
fn blinker_turns_in_middle_cells() {
    let mut cache = EvolutionCache::new();
    let g = board(4, &[(1, 0), (1, 1), (1, 2)]);
    let r = step(g, &mut cache);
    assert_eq!(r[5], Cell::Alive);
    assert_eq!(r[6], Cell::Dead);
    assert_eq!(r[9], Cell::Alive);
    assert_eq!(r[10], Cell::Dead);
    // the outer ring is kept as it was
    assert_eq!(r[4], Cell::Alive);
}

#[test]
fn blinker_oscillates_on_larger_board() {
    let mut cache = EvolutionCache::new();
    let horizontal = board(8, &[(3, 2), (3, 3), (3, 4)]);
    let vertical = board(8, &[(2, 3), (3, 3), (4, 3)]);
    let once = step(horizontal.clone(), &mut cache);
    assert_eq!(once, vertical);
    let twice = step(once, &mut cache);
    assert_eq!(twice, horizontal);
}

#[test]
fn rebuilt_tree_is_answered_from_cache() {
    let mut cache = EvolutionCache::new();
    let g = pseudo_random_board(16, 7);
    let a = Node::new(g.clone()).unwrap();
    let b = Node::new(g.clone()).unwrap();
    assert!(node_eq(&a, &b));
    assert!(a == b);
    let r1 = a.evolve(&mut cache);
    let computed = cache.len();
    assert!(computed > 0);
    let r2 = b.evolve(&mut cache);
    assert_eq!(r1, r2);
    assert_eq!(cache.len(), computed);
}

#[test]
fn evolve_keeps_length() {
    for side in [4usize, 8, 16, 32, 64] {
        let mut cache = EvolutionCache::new();
        let g = pseudo_random_board(side, side as u64);
        let r = step(g, &mut cache);
        assert_eq!(r.len(), side * side);
    }
}

#[test]
fn dead_board_stays_dead() {
    for side in [4usize, 8, 16, 32] {
        let mut cache = EvolutionCache::new();
        let g = vec![Cell::Dead; side * side];
        assert_eq!(step(g.clone(), &mut cache), g);
    }
}

#[test]
fn length_ten_is_invalid_shape() {
    let r = Node::new(vec![Cell::Dead; 10]);
    assert!(matches!(r, Err(BuildError::InvalidShape)));
}

#[test]
fn other_bad_lengths_are_invalid_shape() {
    for len in [0usize, 1, 2, 9, 36, 100] {
        assert!(matches!(Node::new(vec![Cell::Dead; len]), Err(BuildError::InvalidShape)));
    }
    assert!(Node::new(vec![Cell::Alive; 4]).is_ok());
    assert!(Node::new(vec![Cell::Alive; 1024]).is_ok());
}

#[test]
fn side_length_values() {
    assert_eq!(side_length(4), Some(2));
    assert_eq!(side_length(16), Some(4));
    assert_eq!(side_length(1024), Some(32));
    assert_eq!(side_length(10), None);
    assert_eq!(side_length(36), None);
    assert_eq!(side_length(1), None);
    assert_eq!(side_length(0), None);
    assert_eq!(side_length(usize::MAX), None);
}

#[test]
fn rule_values() {
    assert_eq!(next_state(Cell::Alive, 1), Cell::Dead);
    assert_eq!(next_state(Cell::Alive, 2), Cell::Alive);
    assert_eq!(next_state(Cell::Alive, 3), Cell::Alive);
    assert_eq!(next_state(Cell::Alive, 4), Cell::Dead);
    assert_eq!(next_state(Cell::Dead, 2), Cell::Dead);
    assert_eq!(next_state(Cell::Dead, 3), Cell::Alive);
    assert_eq!(next_state(Cell::Dead, 8), Cell::Dead);
}

#[test]
fn matches_plain_step_on_mixed_boards() {
    let mut cache = EvolutionCache::new();
    for (side, seed) in [(4usize, 1u64), (8, 2), (16, 3), (32, 4)] {
        let g = pseudo_random_board(side, seed);
        assert_eq!(step(g.clone(), &mut cache), plain_step(&g, side));
    }
}

#[test]
fn cache_get_put_clear() {
    let mut cache = EvolutionCache::new();
    assert_eq!(cache.len(), 0);
    let g = pseudo_random_board(8, 11);
    let node = Node::new(g.clone()).unwrap();
    assert!(cache.get(&node).is_none());
    let r = node.evolve(&mut cache);
    assert_eq!(cache.get(&node), Some(r.clone()));
    let again = Node::new(g).unwrap();
    cache.put(again, r.clone());
    assert_eq!(cache.get(&node), Some(r));
    cache.clear();
    assert_eq!(cache.len(), 0);
    assert!(cache.get(&node).is_none());
}

#[test]
fn universe_glider_moves_diagonally() {
    let mut u = Universe::new(8);
    assert_eq!(u.size(), 8);
    for (r, c) in [(1, 2), (2, 3), (3, 1), (3, 2), (3, 3)] {
        u.toggle(r, c);
    }
    for _ in 0..4 {
        u.tick();
    }
    for r in 0..8 {
        for c in 0..8 {
            let expected = [(2, 3), (3, 4), (4, 2), (4, 3), (4, 4)].contains(&(r, c));
            assert_eq!(u.is_alive(r, c), expected, "cell {} {}", r, c);
        }
    }
}

#[test]
fn universe_toggle_flips_back() {
    let mut u = Universe::new(16);
    assert!(!u.is_alive(3, 5));
    u.toggle(3, 5);
    assert!(u.is_alive(3, 5));
    assert_eq!(u.cells()[(8 + 3) * 32 + 8 + 5], Cell::Alive);
    u.toggle(3, 5);
    assert!(!u.is_alive(3, 5));
    assert_eq!(u.cells().len(), 1024);
}

#[test]
fn different_boards_give_different_trees() {
    let a = Node::new(board(8, &[(3, 3)])).unwrap();
    let b = Node::new(board(8, &[(3, 4)])).unwrap();
    assert!(!node_eq(&a, &b));
    assert!(a != b);
}

#[test]
fn depth_is_the_side() {
    assert_eq!(Node::new(vec![Cell::Dead; 4]).unwrap().depth(), 2);
    assert_eq!(Node::new(vec![Cell::Dead; 64]).unwrap().depth(), 8);
}
