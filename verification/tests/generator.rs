use jiggysaw::{Edge, PositionClass, Puzzle, Rng};

fn ids_below(e: Edge, max: usize) -> bool {
    match e {
        Edge::Border => true,
        Edge::Innie(id) => id < max,
        Edge::Outie(id) => id < max,
    }
}

#[test]
fn generated_puzzle_is_consistent() {
    let mut rng = Rng::new(42);
    let puzzle = Puzzle::generate(4, 3, 5, &mut rng);
    assert_eq!(puzzle.length, 4);
    assert_eq!(puzzle.height, 3);
    assert_eq!(puzzle.pieces.len(), 12);
    assert!(puzzle.is_consistent());
}

#[test]
fn generated_corners_edges_and_interior_are_classed() {
    let mut rng = Rng::new(7);
    let puzzle = Puzzle::generate(3, 3, 10, &mut rng);
    assert_eq!(puzzle.pieces[0].class, PositionClass::Corner);
    assert_eq!(puzzle.pieces[2].class, PositionClass::Corner);
    assert_eq!(puzzle.pieces[6].class, PositionClass::Corner);
    assert_eq!(puzzle.pieces[8].class, PositionClass::Corner);
    assert_eq!(puzzle.pieces[1].class, PositionClass::EdgeCell);
    assert_eq!(puzzle.pieces[3].class, PositionClass::EdgeCell);
    assert_eq!(puzzle.pieces[5].class, PositionClass::EdgeCell);
    assert_eq!(puzzle.pieces[7].class, PositionClass::EdgeCell);
    assert_eq!(puzzle.pieces[4].class, PositionClass::Inner);
}

#[test]
fn generated_boundary_sides_are_border_and_interior_sides_are_not() {
    let mut rng = Rng::new(3);
    let puzzle = Puzzle::generate(3, 2, 4, &mut rng);
    for i in 0..puzzle.pieces.len() {
        let row = i / 3;
        let col = i % 3;
        let p = puzzle.pieces[i];
        assert_eq!(p.top == Edge::Border, row == 0);
        assert_eq!(p.bottom == Edge::Border, row == 1);
        assert_eq!(p.left == Edge::Border, col == 0);
        assert_eq!(p.right == Edge::Border, col == 2);
    }
}

#[test]
fn generated_shape_identifiers_stay_below_the_bound() {
    let mut rng = Rng::new(11);
    let puzzle = Puzzle::generate(5, 5, 2, &mut rng);
    for p in &puzzle.pieces {
        assert!(ids_below(p.top, 2));
        assert!(ids_below(p.right, 2));
        assert!(ids_below(p.bottom, 2));
        assert!(ids_below(p.left, 2));
    }
}

#[test]
fn one_cell_puzzle_is_a_lone_corner() {
    let mut rng = Rng::new(0);
    let puzzle = Puzzle::generate(1, 1, 1, &mut rng);
    assert_eq!(puzzle.pieces.len(), 1);
    let p = puzzle.pieces[0];
    assert_eq!(p.top, Edge::Border);
    assert_eq!(p.right, Edge::Border);
    assert_eq!(p.bottom, Edge::Border);
    assert_eq!(p.left, Edge::Border);
    assert_eq!(p.class, PositionClass::Corner);
    assert!(puzzle.is_consistent());
}

#[test]
fn generation_is_deterministic_under_a_seed() {
    let mut a = Rng::new(123);
    let mut b = Rng::new(123);
    let pa = Puzzle::generate(4, 4, 6, &mut a);
    let pb = Puzzle::generate(4, 4, 6, &mut b);
    assert_eq!(pa.pieces, pb.pieces);
}

#[test]
fn rng_draws_stay_below_the_bound() {
    let mut rng = Rng::new(99);
    for bound in 1..20usize {
        for _ in 0..50 {
            assert!(rng.next_below(bound) < bound);
        }
    }
}

#[test]
fn rng_is_deterministic_under_a_seed() {
    let mut a = Rng::new(5);
    let mut b = Rng::new(5);
    for _ in 0..10 {
        assert_eq!(a.next_u64(), b.next_u64());
    }
}

#[test]
fn inconsistent_grid_is_rejected_by_the_checker() {
    // A consistent one-row grid, then one mismatched connector.
    let a = jiggysaw::Piece::new(Edge::Border, Edge::Innie(0), Edge::Border, Edge::Border);
    let good_b = jiggysaw::Piece::new(Edge::Border, Edge::Border, Edge::Border, Edge::Outie(0));
    let bad_b = jiggysaw::Piece::new(Edge::Border, Edge::Border, Edge::Border, Edge::Outie(1));
    let good = Puzzle { length: 2, height: 1, pieces: vec![a, good_b] };
    assert!(good.is_consistent());
    let bad = Puzzle { length: 2, height: 1, pieces: vec![a, bad_b] };
    assert!(!bad.is_consistent());
    let short = Puzzle { length: 2, height: 1, pieces: vec![a] };
    assert!(!short.is_consistent());
}
