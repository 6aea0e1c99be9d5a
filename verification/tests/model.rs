use jiggysaw::{Edge, Piece, PositionClass};

fn asymmetric_piece() -> Piece {
    Piece::new(
        Edge::Border,
        Edge::Innie(1),
        Edge::Outie(2),
        Edge::Innie(3),
    )
}

#[test]
fn inverse_maps_each_variant() {
    assert_eq!(Edge::Border.inverse(), Edge::Border);
    assert_eq!(Edge::Innie(5).inverse(), Edge::Outie(5));
    assert_eq!(Edge::Outie(9).inverse(), Edge::Innie(9));
}

#[test]
fn inverse_is_an_involution() {
    for e in [Edge::Border, Edge::Innie(0), Edge::Innie(7), Edge::Outie(3)] {
        assert_eq!(e.inverse().inverse(), e);
    }
}

#[test]
fn rotation_has_order_four() {
    let p = asymmetric_piece();
    let r1 = p.rotate();
    let r2 = r1.rotate();
    let r3 = r2.rotate();
    let r4 = r3.rotate();
    assert_eq!(r4, p);
    assert_ne!(r1, p);
    assert_ne!(r2, p);
    assert_ne!(r3, p);
}

#[test]
fn rotation_keeps_the_class() {
    let p = asymmetric_piece();
    let mut q = p;
    for _ in 0..4 {
        q = q.rotate();
        assert_eq!(q.class, p.class);
    }
}

#[test]
fn rotation_cycles_the_sides() {
    let p = asymmetric_piece();
    let r = p.rotate();
    assert_eq!(r.top, p.right);
    assert_eq!(r.right, p.bottom);
    assert_eq!(r.bottom, p.left);
    assert_eq!(r.left, p.top);
}

#[test]
fn class_derivation_counts_border_sides() {
    let inner = Piece::new(Edge::Innie(0), Edge::Outie(1), Edge::Innie(2), Edge::Outie(3));
    assert_eq!(inner.class, PositionClass::Inner);

    let edge_cell = Piece::new(Edge::Border, Edge::Innie(0), Edge::Outie(1), Edge::Innie(2));
    assert_eq!(edge_cell.class, PositionClass::EdgeCell);

    let corner = Piece::new(Edge::Border, Edge::Innie(0), Edge::Outie(1), Edge::Border);
    assert_eq!(corner.class, PositionClass::Corner);
}

#[test]
fn three_or_four_border_sides_make_a_corner() {
    // End pieces of one-row grids and the single piece of a one-cell grid.
    let three = Piece::new(Edge::Border, Edge::Border, Edge::Border, Edge::Outie(0));
    assert_eq!(three.class, PositionClass::Corner);

    let four = Piece::new(Edge::Border, Edge::Border, Edge::Border, Edge::Border);
    assert_eq!(four.class, PositionClass::Corner);
}

#[test]
fn symmetric_piece_rotations_coincide() {
    let p = Piece::new(Edge::Border, Edge::Border, Edge::Border, Edge::Border);
    assert_eq!(p.rotate(), p);
}
