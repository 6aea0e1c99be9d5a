use jiggysaw::{Edge, Piece, Puzzle, Rng, SolveError};

/// Whether the two collections hold the same pieces, counted with
/// multiplicity, when a piece and its rotations are taken as one.
fn same_bag_up_to_rotation(a: &[Piece], b: &[Piece]) -> bool {
    if a.len() != b.len() {
        return false;
    }
    let mut used = vec![false; b.len()];
    for pa in a {
        let mut found = false;
        for i in 0..b.len() {
            if used[i] {
                continue;
            }
            let mut q = b[i];
            let mut matches = false;
            for _ in 0..4 {
                if q == *pa {
                    matches = true;
                    break;
                }
                q = q.rotate();
            }
            if matches {
                used[i] = true;
                found = true;
                break;
            }
        }
        if !found {
            return false;
        }
    }
    true
}

/// Whether every piece mates with its left and upper neighbours. The
/// solver promises this of every solution; the boundary condition it can
/// only promise when the piece bag comes from a real puzzle.
fn adjacency_holds(p: &Puzzle) -> bool {
    for i in 0..p.pieces.len() {
        let row = i / p.length;
        let col = i % p.length;
        if col != 0 && p.pieces[i].left != p.pieces[i - 1].right.inverse() {
            return false;
        }
        if row != 0 && p.pieces[i].top != p.pieces[i - p.length].bottom.inverse() {
            return false;
        }
    }
    true
}

/// A hand-built, consistent two-by-two grid whose four connectors carry
/// four distinct identifiers, so exactly one arrangement exists.
fn rigid_two_by_two() -> [Piece; 4] {
    let a = Piece::new(Edge::Border, Edge::Innie(0), Edge::Innie(1), Edge::Border);
    let b = Piece::new(Edge::Border, Edge::Border, Edge::Innie(2), Edge::Outie(0));
    let c = Piece::new(Edge::Outie(1), Edge::Innie(3), Edge::Border, Edge::Border);
    let d = Piece::new(Edge::Outie(2), Edge::Border, Edge::Border, Edge::Outie(3));
    [a, b, c, d]
}

#[test]
fn round_trip_generate_scramble_solve() {
    for seed in [1u64, 2, 3, 42, 31415] {
        let mut rng = Rng::new(seed);
        let mut puzzle = Puzzle::generate(3, 3, 20, &mut rng);
        let original = puzzle.pieces.clone();
        puzzle.scramble(&mut rng);
        assert!(same_bag_up_to_rotation(&puzzle.pieces, &original));
        let solutions = puzzle.solve(1).unwrap();
        assert_eq!(solutions.len(), 1);
        let sol = &solutions[0];
        assert!(sol.is_consistent());
        assert_eq!(sol.length, 3);
        assert_eq!(sol.height, 3);
        assert!(same_bag_up_to_rotation(&sol.pieces, &original));
    }
}

#[test]
fn one_cell_puzzle_has_exactly_its_own_solution() {
    let lone = Piece::new(Edge::Border, Edge::Border, Edge::Border, Edge::Border);
    let puzzle = Puzzle { length: 1, height: 1, pieces: vec![lone] };
    let solutions = puzzle.solve(10).unwrap();
    assert_eq!(solutions.len(), 1);
    assert_eq!(solutions[0].pieces, vec![lone]);
    assert!(solutions[0].is_consistent());
}

#[test]
fn rigid_instance_yields_exactly_one_solution() {
    let [a, b, c, d] = rigid_two_by_two();
    // Hand the solver the pieces out of order and out of orientation. The
    // anchor is the first corner piece in input order that can show
    // `Border` on top and left, so `a` leads and the solution comes back
    // in its canonical arrangement.
    let shuffled = vec![a, d.rotate().rotate(), b.rotate(), c.rotate().rotate().rotate()];
    let puzzle = Puzzle { length: 2, height: 2, pieces: shuffled };
    let solutions = puzzle.solve(1000).unwrap();
    assert_eq!(solutions.len(), 1);
    let sol = &solutions[0];
    assert!(sol.is_consistent());
    assert_eq!(sol.pieces, vec![a, b, c, d]);
}

#[test]
fn anchor_choice_fixes_the_returned_orientation() {
    // The same rigid pieces with the half-turned bottom-right corner
    // first: it already shows `Border` on top and left, so it anchors the
    // search, and the one solution is the whole grid turned half way.
    let [a, b, c, d] = rigid_two_by_two();
    let shuffled = vec![d.rotate().rotate(), b.rotate(), a.rotate().rotate().rotate(), c];
    let puzzle = Puzzle { length: 2, height: 2, pieces: shuffled };
    let solutions = puzzle.solve(1000).unwrap();
    assert_eq!(solutions.len(), 1);
    let sol = &solutions[0];
    assert!(sol.is_consistent());
    let half_turn = |p: Piece| p.rotate().rotate();
    assert_eq!(sol.pieces, vec![half_turn(d), half_turn(c), half_turn(b), half_turn(a)]);
}

#[test]
fn solution_cap_is_respected() {
    // A three-by-three grid over a single shape identifier has many valid
    // reassemblies; the solver must stop exactly at the cap.
    let mut rng = Rng::new(8);
    let mut puzzle = Puzzle::generate(3, 3, 1, &mut rng);
    puzzle.scramble(&mut rng);
    let all = puzzle.solve(100000).unwrap();
    let n = all.len();
    assert!(n >= 1);
    for sol in &all {
        assert!(adjacency_holds(sol));
        assert_eq!(sol.pieces[0].top, Edge::Border);
        assert_eq!(sol.pieces[0].left, Edge::Border);
    }
    assert_eq!(puzzle.solve(n).unwrap().len(), n);
    assert_eq!(puzzle.solve(n + 5).unwrap().len(), n);
    if n > 1 {
        assert_eq!(puzzle.solve(n - 1).unwrap().len(), n - 1);
    }
    assert_eq!(puzzle.solve(1).unwrap().len(), 1);
}

#[test]
fn wrong_piece_count_is_reported() {
    let [a, b, c, _] = rigid_two_by_two();
    let puzzle = Puzzle { length: 2, height: 2, pieces: vec![a, b, c] };
    assert!(matches!(puzzle.solve(1), Err(SolveError::WrongPieceCount)));
}

#[test]
fn missing_anchor_piece_is_reported() {
    // An interior-class piece alone: no corner-class piece at all.
    let inner = Piece::new(Edge::Innie(0), Edge::Innie(0), Edge::Innie(0), Edge::Innie(0));
    let puzzle = Puzzle { length: 1, height: 1, pieces: vec![inner] };
    assert!(matches!(puzzle.solve(1), Err(SolveError::NoStartPiece)));

    // A corner-class piece whose two borders sit on opposite sides can
    // never show them on top and left at once.
    let bar = Piece::new(Edge::Border, Edge::Innie(0), Edge::Border, Edge::Outie(0));
    let puzzle = Puzzle { length: 1, height: 1, pieces: vec![bar] };
    assert!(matches!(puzzle.solve(1), Err(SolveError::NoStartPiece)));
}

#[test]
fn duplicate_pieces_are_interchangeable_and_both_used() {
    // A one-row grid whose two middle pieces are identical: each copy is
    // consumed once, and exchanging the copies is not counted as a second
    // arrangement.
    let p0 = Piece::new(Edge::Border, Edge::Innie(0), Edge::Border, Edge::Border);
    let mid = Piece::new(Edge::Border, Edge::Innie(0), Edge::Border, Edge::Outie(0));
    let p3 = Piece::new(Edge::Border, Edge::Border, Edge::Border, Edge::Outie(0));
    let puzzle = Puzzle { length: 4, height: 1, pieces: vec![p0, mid, p3, mid] };
    let solutions = puzzle.solve(1000).unwrap();
    assert!(solutions.len() >= 1);
    // The duplicate is consumed twice, never invented or dropped.
    for sol in &solutions {
        assert!(same_bag_up_to_rotation(&sol.pieces, &puzzle.pieces));
    }
    // Exchanging the two copies does not create a second arrangement: no
    // two returned assemblies are equal as value sequences.
    for i in 0..solutions.len() {
        for j in (i + 1)..solutions.len() {
            assert_ne!(solutions[i].pieces, solutions[j].pieces);
        }
    }
    // The fully consistent arrangement is among the results.
    let canonical = vec![p0, mid, mid, p3];
    assert!(solutions.iter().any(|s| s.pieces == canonical));
}

#[test]
fn one_row_grid_generates_and_solves() {
    // On a one-row grid the end pieces carry three border sides and the
    // middle pieces two, so every cell is corner-classed; generation and
    // solving handle the degenerate shape all the same.
    let mut rng = Rng::new(6);
    let mut puzzle = Puzzle::generate(3, 1, 4, &mut rng);
    assert!(puzzle.is_consistent());
    let original = puzzle.pieces.clone();
    puzzle.scramble(&mut rng);
    let solutions = puzzle.solve(1).unwrap();
    assert_eq!(solutions.len(), 1);
    assert!(adjacency_holds(&solutions[0]));
    assert!(same_bag_up_to_rotation(&solutions[0].pieces, &original));
}

#[test]
fn scramble_keeps_dimensions_and_pieces() {
    let mut rng = Rng::new(77);
    let mut puzzle = Puzzle::generate(4, 2, 5, &mut rng);
    let original = puzzle.pieces.clone();
    puzzle.scramble(&mut rng);
    assert_eq!(puzzle.length, 4);
    assert_eq!(puzzle.height, 2);
    assert_eq!(puzzle.pieces.len(), original.len());
    assert!(same_bag_up_to_rotation(&puzzle.pieces, &original));
}

#[test]
fn solver_solutions_reuse_exactly_the_input_pieces() {
    let mut rng = Rng::new(4242);
    let mut puzzle = Puzzle::generate(2, 3, 3, &mut rng);
    puzzle.scramble(&mut rng);
    let solutions = puzzle.solve(5).unwrap();
    assert!(solutions.len() >= 1);
    for sol in &solutions {
        assert!(same_bag_up_to_rotation(&sol.pieces, &puzzle.pieces));
        assert_eq!(sol.pieces[0].top, Edge::Border);
        assert_eq!(sol.pieces[0].left, Edge::Border);
    }
}

#[test]
fn solutions_are_pairwise_distinct() {
    let mut rng = Rng::new(8);
    let mut puzzle = Puzzle::generate(3, 3, 1, &mut rng);
    puzzle.scramble(&mut rng);
    let all = puzzle.solve(100000).unwrap();
    for i in 0..all.len() {
        for j in (i + 1)..all.len() {
            assert_ne!(all[i].pieces, all[j].pieces);
        }
    }
}

#[test]
fn oblong_grid_anchor_choice_decides_what_is_enumerated() {
    // A consistent two-wide, three-tall grid with distinct connector
    // identifiers: top-left TL, top-right TR, middle ML and MR, bottom BL
    // and BR. Only TL and the half-turned BR can sit top-left in an
    // assembly of an oblong grid.
    let tl = Piece::new(Edge::Border, Edge::Innie(0), Edge::Innie(1), Edge::Border);
    let tr = Piece::new(Edge::Border, Edge::Border, Edge::Innie(2), Edge::Outie(0));
    let ml = Piece::new(Edge::Outie(1), Edge::Innie(3), Edge::Innie(4), Edge::Border);
    let mr = Piece::new(Edge::Outie(2), Edge::Border, Edge::Innie(5), Edge::Outie(3));
    let bl = Piece::new(Edge::Outie(4), Edge::Innie(6), Edge::Border, Edge::Border);
    let br = Piece::new(Edge::Outie(5), Edge::Border, Edge::Border, Edge::Outie(6));
    let assembled = Puzzle { length: 2, height: 3, pieces: vec![tl, tr, ml, mr, bl, br] };
    assert!(assembled.is_consistent());

    // With TL first, the anchor roots the canonical assembly: one solution.
    let found = Puzzle { length: 2, height: 3, pieces: vec![tl, tr, ml, mr, bl, br] }
        .solve(1000)
        .unwrap();
    assert_eq!(found.len(), 1);
    assert!(found[0].is_consistent());

    // With TR first, TR is the first corner-class piece that can be turned
    // to show Border on top and left, so it anchors — and no assembly puts
    // TR top-left, so the search proves its rooted tree empty. This is the
    // single-anchor symmetry breaking at work: solutions rooted at other
    // anchors are deliberately not enumerated.
    let none = Puzzle { length: 2, height: 3, pieces: vec![tr, tl, ml, mr, bl, br] }
        .solve(1000)
        .unwrap();
    assert_eq!(none.len(), 0);
}
