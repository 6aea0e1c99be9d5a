use vstd::prelude::*;
use vstd::arithmetic::div_mod::lemma_fundamental_div_mod;
use vstd::arithmetic::div_mod::lemma_fundamental_div_mod_converse;
use vstd::arithmetic::div_mod::lemma_div_pos_is_pos;
use vstd::arithmetic::div_mod::lemma_mod_bound;
use vstd::arithmetic::div_mod::lemma_multiply_divide_lt;
use vstd::seq_lib::group_to_multiset_ensures;
use vstd::multiset::group_multiset_axioms;
use crate::edge::Edge;
use crate::piece::Piece;
use crate::piece::lemma_rotation_preserves_class;
use crate::piece::same_pieces_up_to_rotation;
use crate::rng::Rng;

verus! {

/// The row of the cell at row-major index `i` on a grid `length` cells wide.
pub open spec fn grid_row(i: int, length: int) -> int {
    i / length
}

/// The column of the cell at row-major index `i` on a grid `length` cells wide.
pub open spec fn grid_col(i: int, length: int) -> int {
    i % length
}

/// The sides of the piece at index `i` mate with its left and upper
/// neighbours: away from the first column, its left side is the inverse of
/// the right side before it; away from the first row, its top side is the
/// inverse of the bottom side above it.
pub open spec fn grid_adjacent_ok_at(pieces: Seq<Piece>, i: int, length: int) -> bool {
    &&& (grid_col(i, length) != 0 ==> pieces[i - 1].right.spec_fits(pieces[i].left))
    &&& (grid_row(i, length) != 0 ==> pieces[i - length].bottom.spec_fits(pieces[i].top))
}

/// The piece at index `i` shows `Border` on each side that faces the
/// outside of the grid, and on no other side.
pub open spec fn grid_boundary_ok_at(pieces: Seq<Piece>, i: int, length: int, height: int) -> bool {
    &&& (pieces[i].top == Edge::Border <==> grid_row(i, length) == 0)
    &&& (pieces[i].bottom == Edge::Border <==> grid_row(i, length) == height - 1)
    &&& (pieces[i].left == Edge::Border <==> grid_col(i, length) == 0)
    &&& (pieces[i].right == Edge::Border <==> grid_col(i, length) == length - 1)
}

/// The edge carries no shape identifier, or one below `max`.
pub open spec fn edge_id_below(e: Edge, max: int) -> bool {
    match e {
        Edge::Border => true,
        Edge::Innie(id) => id < max,
        Edge::Outie(id) => id < max,
    }
}

/// All four sides of the piece carry identifiers below `max`, where they
/// carry one at all.
pub open spec fn piece_ids_below(p: Piece, max: int) -> bool {
    edge_id_below(p.top, max) && edge_id_below(p.right, max) && edge_id_below(p.bottom, max)
        && edge_id_below(p.left, max)
}

/// A row-major index decomposes into its row and column.
pub(crate) proof fn lemma_grid_decomp(i: int, length: int)
    requires
        length >= 1,
        0 <= i,
    ensures
        i == grid_row(i, length) * length + grid_col(i, length),
        0 <= grid_col(i, length) < length,
        0 <= grid_row(i, length),
{
    lemma_fundamental_div_mod(i, length);
    lemma_mod_bound(i, length);
    lemma_div_pos_is_pos(i, length);
    assert(length * grid_row(i, length) == grid_row(i, length) * length) by (nonlinear_arith);
}

/// An index inside the grid lies on a row inside the grid.
pub(crate) proof fn lemma_grid_row_bound(i: int, length: int, height: int)
    requires
        length >= 1,
        height >= 1,
        0 <= i < length * height,
    ensures
        0 <= grid_row(i, length) < height,
{
    lemma_grid_decomp(i, length);
    lemma_multiply_divide_lt(i, length, height);
}

/// Away from the first column, the cell before `i` lies on the same row,
/// one column to the left.
pub(crate) proof fn lemma_grid_prev_cell(i: int, length: int)
    requires
        length >= 1,
        0 <= i,
        grid_col(i, length) != 0,
    ensures
        i >= 1,
        grid_row(i - 1, length) == grid_row(i, length),
        grid_col(i - 1, length) == grid_col(i, length) - 1,
{
    lemma_grid_decomp(i, length);
    lemma_fundamental_div_mod_converse(
        i - 1,
        length,
        grid_row(i, length),
        grid_col(i, length) - 1,
    );
}

/// Away from the first row, the cell `length` places before `i` lies on
/// the row above, in the same column.
pub(crate) proof fn lemma_grid_above_cell(i: int, length: int)
    requires
        length >= 1,
        0 <= i,
        grid_row(i, length) != 0,
    ensures
        i >= length,
        grid_row(i - length, length) == grid_row(i, length) - 1,
        grid_col(i - length, length) == grid_col(i, length),
{
    lemma_grid_decomp(i, length);
    assert((grid_row(i, length) - 1) * length == grid_row(i, length) * length - length)
        by (nonlinear_arith);
    lemma_fundamental_div_mod_converse(
        i - length,
        length,
        grid_row(i, length) - 1,
        grid_col(i, length),
    );
}

/// The first cell lies on the first row and the first column.
pub(crate) proof fn lemma_grid_origin(length: int)
    requires
        length >= 1,
    ensures
        grid_row(0, length) == 0,
        grid_col(0, length) == 0,
{
    lemma_fundamental_div_mod_converse(0, length, 0, 0);
}

/// A `length` by `height` grid of pieces in row-major order: index `i`
/// sits on row `i / length`, column `i % length`. The dimensions are fixed
/// at construction.
pub struct Puzzle {
    pub length: usize,
    pub height: usize,
    pub pieces: Vec<Piece>,
}

impl Puzzle {
    /// The number of cells.
    pub open spec fn total(self) -> int {
        self.length * self.height
    }

    /// Positive dimensions, one piece per cell, every piece carrying the
    /// class its own sides derive.
    pub open spec fn wf(self) -> bool {
        &&& self.length >= 1
        &&& self.height >= 1
        &&& self.pieces@.len() == self.total()
        &&& forall|i: int| 0 <= i < self.pieces@.len() ==> (#[trigger] self.pieces@[i]).wf()
    }

    pub open spec fn adjacent_ok_at(self, i: int) -> bool {
        grid_adjacent_ok_at(self.pieces@, i, self.length as int)
    }

    pub open spec fn boundary_ok_at(self, i: int) -> bool {
        grid_boundary_ok_at(self.pieces@, i, self.length as int, self.height as int)
    }

    /// Every piece mates with its left and upper neighbours.
    pub open spec fn adjacent(self) -> bool {
        forall|i: int| 0 <= i < self.pieces@.len() ==> #[trigger] self.adjacent_ok_at(i)
    }

    /// Every piece shows `Border` exactly on its outward-facing sides.
    pub open spec fn boundary_ok(self) -> bool {
        forall|i: int| 0 <= i < self.pieces@.len() ==> #[trigger] self.boundary_ok_at(i)
    }

    /// The full consistency invariant of an assembled puzzle: neighbouring
    /// sides mate everywhere, and `Border` stands exactly on the grid's rim.
    pub open spec fn consistent(self) -> bool {
        self.adjacent() && self.boundary_ok()
    }

    /// Decides the full consistency invariant: positive dimensions, one
    /// piece per cell, and the adjacency and boundary conditions at every
    /// cell.
    pub fn is_consistent(&self) -> (r: bool)
        ensures
            r == (self.length >= 1 && self.height >= 1 && self.pieces@.len() == self.total()
                && self.consistent()),
    {
        if self.length < 1 || self.height < 1 {
            return false;
        }
        let count = self.pieces.len();
        let total = match self.length.checked_mul(self.height) {
            Some(t) => t,
            None => {
                proof {
                    assert(count <= usize::MAX < self.total());
                }
                return false;
            },
        };
        if count != total {
            return false;
        }
        let mut i: usize = 0;
        while i < total
            invariant
                self.length >= 1,
                self.height >= 1,
                total == self.total(),
                self.pieces@.len() == total,
                i <= total,
                forall|j: int| 0 <= j < i ==> #[trigger] self.adjacent_ok_at(j),
                forall|j: int| 0 <= j < i ==> #[trigger] self.boundary_ok_at(j),
            decreases total - i,
        {
            let row = i / self.length;
            let col = i % self.length;
            proof {
                lemma_grid_decomp(i as int, self.length as int);
            }
            let p = self.pieces[i];
            if (p.top == Edge::Border) != (row == 0) {
                proof {
                    assert(!self.boundary_ok_at(i as int));
                }
                return false;
            }
            if (p.bottom == Edge::Border) != (row == self.height - 1) {
                proof {
                    assert(!self.boundary_ok_at(i as int));
                }
                return false;
            }
            if (p.left == Edge::Border) != (col == 0) {
                proof {
                    assert(!self.boundary_ok_at(i as int));
                }
                return false;
            }
            if (p.right == Edge::Border) != (col == self.length - 1) {
                proof {
                    assert(!self.boundary_ok_at(i as int));
                }
                return false;
            }
            if col != 0 {
                proof {
                    lemma_grid_prev_cell(i as int, self.length as int);
                }
                if p.left != self.pieces[i - 1].right.inverse() {
                    proof {
                        assert(!self.adjacent_ok_at(i as int));
                    }
                    return false;
                }
            }
            if row != 0 {
                proof {
                    lemma_grid_above_cell(i as int, self.length as int);
                }
                if p.top != self.pieces[i - self.length].bottom.inverse() {
                    proof {
                        assert(!self.adjacent_ok_at(i as int));
                    }
                    return false;
                }
            }
            proof {
                assert(self.adjacent_ok_at(i as int));
                assert(self.boundary_ok_at(i as int));
            }
            i = i + 1;
        }
        true
    }

    /// Builds a consistent `length` by `height` puzzle. Boundary-facing
    /// sides are `Border`; every interior-facing side draws a shape
    /// identifier below `max_shape_id` and a random choice of `Innie` or
    /// `Outie`, and the facing neighbour receives the inverse, so the
    /// result satisfies the full consistency invariant by construction.
    pub fn generate(length: usize, height: usize, max_shape_id: usize, rng: &mut Rng) -> (r:
        Puzzle)
        requires
            length >= 1,
            height >= 1,
            max_shape_id >= 1,
            length * height <= usize::MAX,
        ensures
            r.length == length,
            r.height == height,
            r.wf(),
            r.consistent(),
            forall|i: int|
                0 <= i < r.pieces@.len() ==> piece_ids_below(
                    #[trigger] r.pieces@[i],
                    max_shape_id as int,
                ),
    {
        let total = length * height;
        let mut pieces: Vec<Piece> = Vec::new();
        let mut i: usize = 0;
        while i < total
            invariant
                length >= 1,
                height >= 1,
                max_shape_id >= 1,
                total == length * height,
                i <= total,
                pieces@.len() == i,
                forall|j: int| 0 <= j < i ==> (#[trigger] pieces@[j]).wf(),
                forall|j: int|
                    0 <= j < i ==> #[trigger] grid_adjacent_ok_at(pieces@, j, length as int),
                forall|j: int|
                    0 <= j < i ==> #[trigger] grid_boundary_ok_at(
                        pieces@,
                        j,
                        length as int,
                        height as int,
                    ),
                forall|j: int|
                    0 <= j < i ==> piece_ids_below(#[trigger] pieces@[j], max_shape_id as int),
            decreases total - i,
        {
            let row = i / length;
            let col = i % length;
            proof {
                lemma_grid_decomp(i as int, length as int);
                lemma_grid_row_bound(i as int, length as int, height as int);
                if col != 0 {
                    lemma_grid_prev_cell(i as int, length as int);
                }
                if row != 0 {
                    lemma_grid_above_cell(i as int, length as int);
                    lemma_grid_row_bound((i - length) as int, length as int, height as int);
                }
            }
            let top = if row == 0 {
                Edge::Border
            } else {
                pieces[i - length].bottom.inverse()
            };
            let left = if col == 0 {
                Edge::Border
            } else {
                pieces[i - 1].right.inverse()
            };
            let right = if col == length - 1 {
                Edge::Border
            } else {
                random_connector(rng, max_shape_id)
            };
            let bottom = if row == height - 1 {
                Edge::Border
            } else {
                random_connector(rng, max_shape_id)
            };
            let p = Piece::new(top, right, bottom, left);
            proof {
                if row != 0 {
                    assert(grid_boundary_ok_at(pieces@, i - length, length as int, height as int));
                    assert(piece_ids_below(pieces@[i - length], max_shape_id as int));
                }
                if col != 0 {
                    assert(grid_boundary_ok_at(pieces@, i - 1, length as int, height as int));
                    assert(piece_ids_below(pieces@[i - 1], max_shape_id as int));
                }
            }
            let ghost prev = pieces@;
            pieces.push(p);
            proof {
                assert(pieces@[i as int] == p);
                assert(grid_adjacent_ok_at(pieces@, i as int, length as int));
                assert(grid_boundary_ok_at(pieces@, i as int, length as int, height as int));
                assert(piece_ids_below(pieces@[i as int], max_shape_id as int));
                assert forall|j: int|
                    0 <= j < i implies #[trigger] grid_adjacent_ok_at(pieces@, j, length as int) by {
                    assert(grid_adjacent_ok_at(prev, j, length as int));
                    if grid_col(j, length as int) != 0 {
                        lemma_grid_prev_cell(j, length as int);
                    }
                    if grid_row(j, length as int) != 0 {
                        lemma_grid_above_cell(j, length as int);
                    }
                }
                assert forall|j: int|
                    0 <= j < i implies #[trigger] grid_boundary_ok_at(
                    pieces@,
                    j,
                    length as int,
                    height as int,
                ) by {
                    assert(grid_boundary_ok_at(prev, j, length as int, height as int));
                }
                assert forall|j: int|
                    0 <= j < i implies piece_ids_below(
                    #[trigger] pieces@[j],
                    max_shape_id as int,
                ) by {
                    assert(piece_ids_below(prev[j], max_shape_id as int));
                }
            }
            i = i + 1;
        }
        Puzzle { length, height, pieces }
    }

    /// Randomly reorders the pieces and gives each one a random
    /// orientation, in place. The dimensions are kept; the pieces after
    /// the call are, up to rotation, the same collection as before: some
    /// reordering of the old pieces, each turned zero to three quarter
    /// turns. The adjacency invariant is deliberately not preserved.
    pub fn scramble(&mut self, rng: &mut Rng)
        ensures
            final(self).length == old(self).length,
            final(self).height == old(self).height,
            final(self).pieces@.len() == old(self).pieces@.len(),
            same_pieces_up_to_rotation(final(self).pieces@, old(self).pieces@),
            old(self).wf() ==> final(self).wf(),
    {
        broadcast use group_to_multiset_ensures;
        broadcast use group_multiset_axioms;

        let len = self.pieces.len();
        let mut k: usize = len;
        while k > 1
            invariant
                self.length == old(self).length,
                self.height == old(self).height,
                self.pieces@.len() == len,
                k <= len,
                self.pieces@.to_multiset() == old(self).pieces@.to_multiset(),
                old(self).wf() ==> forall|q: int|
                    0 <= q < len ==> (#[trigger] self.pieces@[q]).wf(),
            decreases k,
        {
            k = k - 1;
            let j = rng.next_below(k + 1);
            let ghost s0 = self.pieces@;
            let a = self.pieces[k];
            let b = self.pieces[j];
            self.pieces[k] = b;
            self.pieces[j] = a;
            proof {
                broadcast use group_to_multiset_ensures;
                broadcast use group_multiset_axioms;

                assert(s0.contains(a));
                assert(s0.to_multiset().count(a) > 0);
                vstd::assert_multisets_equal!(self.pieces@.to_multiset(), s0.to_multiset());
                if old(self).wf() {
                    assert forall|q: int| 0 <= q < len implies (
                    #[trigger] self.pieces@[q]).wf() by {
                        if q == k as int {
                            assert(self.pieces@[q] == s0[j as int]);
                        } else if q == j as int {
                            assert(self.pieces@[q] == s0[k as int]);
                        } else {
                            assert(self.pieces@[q] == s0[q]);
                        }
                    }
                }
            }
        }
        let ghost mid = self.pieces@;
        let mut i: usize = 0;
        while i < len
            invariant
                self.length == old(self).length,
                self.height == old(self).height,
                self.pieces@.len() == len,
                mid.len() == len,
                i <= len,
                mid.to_multiset() == old(self).pieces@.to_multiset(),
                forall|q: int| 0 <= q < i ==> (#[trigger] self.pieces@[q]).is_rotation_of(mid[q]),
                forall|q: int| i <= q < len ==> self.pieces@[q] == mid[q],
                old(self).wf() ==> forall|q: int|
                    0 <= q < len ==> (#[trigger] self.pieces@[q]).wf(),
            decreases len - i,
        {
            let r = rng.next_below(4);
            let p0 = self.pieces[i];
            let p = if r == 0 {
                p0
            } else if r == 1 {
                p0.rotate()
            } else if r == 2 {
                p0.rotate().rotate()
            } else {
                p0.rotate().rotate().rotate()
            };
            proof {
                assert(p0.spec_rotate_n(0) == p0);
                assert(p0.spec_rotate_n(1) == p0.spec_rotate_n(0).spec_rotate());
                assert(p0.spec_rotate_n(2) == p0.spec_rotate_n(1).spec_rotate());
                assert(p0.spec_rotate_n(3) == p0.spec_rotate_n(2).spec_rotate());
                assert(p == p0.spec_rotate_n(r as nat));
                assert(p.is_rotation_of(p0));
                lemma_rotation_preserves_class(p0);
                lemma_rotation_preserves_class(p0.spec_rotate());
                lemma_rotation_preserves_class(p0.spec_rotate().spec_rotate());
            }
            self.pieces[i] = p;
            i = i + 1;
        }
    }
}

/// Draws a connector side: a shape identifier below `max_shape_id` and a
/// random choice between `Innie` and `Outie`. Never a `Border`.
fn random_connector(rng: &mut Rng, max_shape_id: usize) -> (e: Edge)
    requires
        max_shape_id >= 1,
    ensures
        e != Edge::Border,
        edge_id_below(e, max_shape_id as int),
{
    let id = rng.next_below(max_shape_id);
    if rng.next_below(2) == 0 {
        Edge::Innie(id)
    } else {
        Edge::Outie(id)
    }
}

} // verus!
