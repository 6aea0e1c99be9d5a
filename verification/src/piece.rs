use vstd::prelude::*;
use crate::edge::Edge;

verus! {

/// Where a piece (or a grid slot) can sit, derived from how many of its
/// sides face the outside of the grid: no border side makes an interior
/// piece, one makes an edge piece, and two or more make a corner piece.
/// (On a grid at least two cells wide and two cells tall a corner cell has
/// exactly two border sides; a one-row, one-column or one-cell grid gives
/// its end pieces three or four.)
#[derive(Clone, Copy, Debug, PartialEq, Eq, Structural)]
pub enum PositionClass {
    Corner,
    EdgeCell,
    Inner,
}

/// How many of the four given sides are `Border`.
pub open spec fn border_count(top: Edge, right: Edge, bottom: Edge, left: Edge) -> int {
    (if top == Edge::Border { 1int } else { 0int })
        + (if right == Edge::Border { 1int } else { 0int })
        + (if bottom == Edge::Border { 1int } else { 0int })
        + (if left == Edge::Border { 1int } else { 0int })
}

/// The position class determined by a count of border sides.
pub open spec fn class_of_border_count(n: int) -> PositionClass {
    if n == 0 {
        PositionClass::Inner
    } else if n == 1 {
        PositionClass::EdgeCell
    } else {
        PositionClass::Corner
    }
}

/// A puzzle piece: four sides and the position class derived from them
/// once, at construction. Pieces compare by full value equality, so a
/// piece and its rotations are distinct values unless the piece is
/// rotationally symmetric.
#[derive(Clone, Copy, Debug, PartialEq, Eq, Structural)]
pub struct Piece {
    pub top: Edge,
    pub right: Edge,
    pub bottom: Edge,
    pub left: Edge,
    pub class: PositionClass,
}

impl Piece {
    /// How many of this piece's sides are `Border`.
    pub open spec fn spec_border_count(self) -> int {
        border_count(self.top, self.right, self.bottom, self.left)
    }

    /// A well-formed piece carries the class derived from its own sides.
    pub open spec fn wf(self) -> bool {
        self.class == class_of_border_count(self.spec_border_count())
    }

    /// One quarter turn: each side moves one place against the cycle
    /// top, right, bottom, left. The class is a count of sides and does
    /// not move.
    pub open spec fn spec_rotate(self) -> Piece {
        Piece {
            top: self.right,
            right: self.bottom,
            bottom: self.left,
            left: self.top,
            class: self.class,
        }
    }

    /// `n` quarter turns.
    pub open spec fn spec_rotate_n(self, n: nat) -> Piece
        decreases n,
    {
        if n == 0 {
            self
        } else {
            self.spec_rotate_n((n - 1) as nat).spec_rotate()
        }
    }

    /// `self` can be obtained from `other` by zero to three quarter turns.
    pub open spec fn is_rotation_of(self, other: Piece) -> bool {
        exists|k: nat| k < 4 && self == other.spec_rotate_n(k)
    }

    /// Builds a piece from its four sides, deriving the position class
    /// from the number of border sides.
    pub fn new(top: Edge, right: Edge, bottom: Edge, left: Edge) -> (r: Piece)
        ensures
            r == (Piece {
                top,
                right,
                bottom,
                left,
                class: class_of_border_count(border_count(top, right, bottom, left)),
            }),
            r.wf(),
    {
        let mut n: u8 = 0;
        if top == Edge::Border {
            n = n + 1;
        }
        if right == Edge::Border {
            n = n + 1;
        }
        if bottom == Edge::Border {
            n = n + 1;
        }
        if left == Edge::Border {
            n = n + 1;
        }
        let class = if n == 0 {
            PositionClass::Inner
        } else if n == 1 {
            PositionClass::EdgeCell
        } else {
            PositionClass::Corner
        };
        Piece { top, right, bottom, left, class }
    }

    /// Applies one quarter turn.
    pub fn rotate(&self) -> (r: Piece)
        ensures
            r == self.spec_rotate(),
    {
        Piece {
            top: self.right,
            right: self.bottom,
            bottom: self.left,
            left: self.top,
            class: self.class,
        }
    }
}

/// The value `e` stands on one of the piece's four sides.
pub open spec fn piece_has_edge(p: Piece, e: Edge) -> bool {
    p.top == e || p.right == e || p.bottom == e || p.left == e
}

/// A quarter turn moves the sides around but shows the same side values,
/// so which edge values a piece has does not depend on its orientation.
pub proof fn lemma_rotation_preserves_edges(p: Piece, e: Edge)
    ensures
        piece_has_edge(p.spec_rotate(), e) == piece_has_edge(p, e),
{
}

/// Any of a piece's four orientations shows the same side values and
/// carries the same class as the piece itself.
pub proof fn lemma_rotation_same_edges_and_class(r: Piece, q: Piece, e: Edge)
    requires
        r.is_rotation_of(q),
    ensures
        piece_has_edge(r, e) == piece_has_edge(q, e),
        r.class == q.class,
{
    let m = choose|m: nat| m < 4 && r == q.spec_rotate_n(m);
    assert(q.spec_rotate_n(0) == q);
    assert(q.spec_rotate_n(1) == q.spec_rotate_n(0).spec_rotate());
    assert(q.spec_rotate_n(2) == q.spec_rotate_n(1).spec_rotate());
    assert(q.spec_rotate_n(3) == q.spec_rotate_n(2).spec_rotate());
    lemma_rotation_preserves_edges(q, e);
    lemma_rotation_preserves_edges(q.spec_rotate(), e);
    lemma_rotation_preserves_edges(q.spec_rotate().spec_rotate(), e);
    assert(m == 0 || m == 1 || m == 2 || m == 3);
}

/// Sequence `a` holds, up to rotation, the same pieces as sequence `b`:
/// some reordering of `b` — a sequence carrying exactly `b`'s multiset of
/// piece values — has each `a[i]` a rotation of its `i`-th piece. No piece
/// is invented, dropped or duplicated; only order and orientation differ.
pub open spec fn same_pieces_up_to_rotation(a: Seq<Piece>, b: Seq<Piece>) -> bool {
    exists|mid: Seq<Piece>|
        #[trigger] mid.to_multiset() == b.to_multiset() && mid.len() == a.len() && (forall|i: int|
            0 <= i < a.len() ==> (#[trigger] a[i]).is_rotation_of(mid[i]))
}

/// Four quarter turns give the original piece back, for every piece.
pub proof fn lemma_rotation_order_four(p: Piece)
    ensures
        p.spec_rotate().spec_rotate().spec_rotate().spec_rotate() == p,
        p.spec_rotate_n(4) == p,
{
    assert(p.spec_rotate_n(4) == p.spec_rotate_n(3).spec_rotate());
    assert(p.spec_rotate_n(3) == p.spec_rotate_n(2).spec_rotate());
    assert(p.spec_rotate_n(2) == p.spec_rotate_n(1).spec_rotate());
    assert(p.spec_rotate_n(1) == p.spec_rotate_n(0).spec_rotate());
}

/// A quarter turn moves the sides but neither their number of borders nor
/// the stored class, so it takes well-formed pieces to well-formed pieces.
pub proof fn lemma_rotation_preserves_class(p: Piece)
    ensures
        p.spec_rotate().class == p.class,
        p.spec_rotate().spec_border_count() == p.spec_border_count(),
        p.wf() ==> p.spec_rotate().wf(),
{
}

} // verus!
