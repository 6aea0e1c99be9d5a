use vstd::prelude::*;
use vstd::seq_lib::group_to_multiset_ensures;
use vstd::multiset::group_multiset_axioms;
use vstd::set_lib::set_int_range;
use vstd::set_lib::lemma_int_range;
use vstd::set_lib::lemma_len_subset;
use vstd::arithmetic::power::pow;
use vstd::arithmetic::power::lemma_pow_positive;
use crate::edge::Edge;
use crate::piece::Piece;
use crate::piece::PositionClass;
use crate::piece::class_of_border_count;
use crate::piece::same_pieces_up_to_rotation;
use crate::pool::Pool;
use crate::pool::cand_ok;
use crate::puzzle::Puzzle;
use crate::puzzle::grid_col;
use crate::puzzle::grid_row;
use crate::puzzle::lemma_grid_above_cell;
use crate::puzzle::lemma_grid_prev_cell;
use crate::puzzle::lemma_grid_origin;

verus! {

/// Why a piece collection cannot be searched at all: the collection does
/// not hold one piece per cell of the declared grid, or no corner-class
/// piece can be turned to show `Border` on top and left to anchor the
/// search. Either is malformed input, reported apart from an exhausted
/// search that simply finds nothing.
#[derive(Clone, Copy, Debug, PartialEq, Eq, Structural)]
pub enum SolveError {
    WrongPieceCount,
    NoStartPiece,
}

/// How many sides of the grid cell at row-major index `i` face the
/// outside of a `length` by `height` grid.
pub open spec fn slot_border_count(i: int, length: int, height: int) -> int {
    (if grid_row(i, length) == 0 { 1int } else { 0int })
        + (if grid_row(i, length) == height - 1 { 1int } else { 0int })
        + (if grid_col(i, length) == 0 { 1int } else { 0int })
        + (if grid_col(i, length) == length - 1 { 1int } else { 0int })
}

/// The position class a piece must have to sit in the cell at row-major
/// index `i`: derived from the cell's outward-facing sides exactly as a
/// piece's class is derived from its `Border` sides.
pub open spec fn slot_class(i: int, length: int, height: int) -> PositionClass {
    class_of_border_count(slot_border_count(i, length, height))
}

/// The orientation `r` may sit in slot `k`, given the pieces placed so
/// far: it has slot `k`'s class; in the very first slot it shows `Border`
/// on top and left (the canonical anchor orientation); in every later slot
/// its left side mates with the piece before it; and away from the first
/// row its top side mates with the piece one row above.
spec fn candidate_fits(
    r: Piece,
    k: int,
    placed: Seq<(Piece, usize)>,
    length: int,
    height: int,
) -> bool {
    &&& r.class == slot_class(k, length, height)
    &&& (k == 0 ==> r.top == Edge::Border && r.left == Edge::Border)
    &&& (k >= 1 ==> r.left == placed[k - 1].0.right.spec_inverse())
    &&& (k >= length ==> r.top == placed[k - length].0.bottom.spec_inverse())
}

/// Some placement among the first `f` uses input slot `idx`.
spec fn placed_before(placed: Seq<(Piece, usize)>, f: int, idx: int) -> bool {
    exists|j: int| 0 <= j < f && (#[trigger] placed[j]).1 == idx
}

/// A candidate stored in the frame for slot `f` is sound: it names an
/// input slot not used by any earlier placement, carries a rotation of
/// that slot's piece, and fits slot `f` against the placements before it.
spec fn frame_cand_ok(
    cd: (Piece, usize),
    f: int,
    placed: Seq<(Piece, usize)>,
    inp: Seq<Piece>,
    length: int,
    height: int,
) -> bool {
    &&& cd.1 < inp.len()
    &&& !placed_before(placed, f, cd.1 as int)
    &&& cd.0.is_rotation_of(inp[cd.1 as int])
    &&& candidate_fits(cd.0, f, placed, length, height)
}

/// The running state of the placement sequence against the input pieces
/// and the pool's slots: a slot is empty exactly when some placement uses
/// it; no input slot is used twice; each placement is a rotation of its
/// slot's piece; and each placement fits its grid position against the
/// ones before it.
spec fn placed_state_ok(
    placed: Seq<(Piece, usize)>,
    slots: Seq<Option<Piece>>,
    inp: Seq<Piece>,
    length: int,
    height: int,
) -> bool {
    &&& slots.len() == inp.len()
    &&& placed.len() <= inp.len()
    &&& (forall|i: int|
        0 <= i < inp.len() ==> #[trigger] slots[i] == (if placed_before(
            placed,
            placed.len() as int,
            i,
        ) {
            None::<Piece>
        } else {
            Some(inp[i])
        }))
    &&& (forall|a: int, b: int|
        0 <= a < b < placed.len() ==> (#[trigger] placed[a]).1 != (#[trigger] placed[b]).1)
    &&& (forall|j: int|
        0 <= j < placed.len() ==> (#[trigger] placed[j]).1 < inp.len()
            && placed[j].0.is_rotation_of(inp[placed[j].1 as int]))
    &&& (forall|j: int|
        0 <= j < placed.len() ==> #[trigger] candidate_fits(placed[j].0, j, placed, length, height))
}

/// Every candidate in every stack frame is sound for its frame's slot.
spec fn frames_ok(
    stackv: Seq<Vec<(Piece, usize)>>,
    placed: Seq<(Piece, usize)>,
    inp: Seq<Piece>,
    length: int,
    height: int,
) -> bool {
    forall|f: int, c: int|
        0 <= f < stackv.len() && 0 <= c < stackv[f]@.len() ==> frame_cand_ok(
            #[trigger] stackv[f]@[c],
            f,
            placed,
            inp,
            length,
            height,
        )
}

/// Within each frame, no two candidates carry the same orientation.
spec fn frame_values_distinct(stackv: Seq<Vec<(Piece, usize)>>) -> bool {
    forall|f: int, c1: int, c2: int|
        0 <= f < stackv.len() && 0 <= c1 < c2 < stackv[f]@.len() ==> (#[trigger] stackv[f]@[c1]).0
            != (#[trigger] stackv[f]@[c2]).0
}

/// Every placed orientation has been consumed from its own frame: frame
/// `j` no longer lists the orientation standing at position `j`.
spec fn placed_blocked(stackv: Seq<Vec<(Piece, usize)>>, placed: Seq<(Piece, usize)>) -> bool {
    forall|j: int|
        0 <= j < placed.len() && j < stackv.len() ==> !crate::pool::cands_lists(
            (#[trigger] stackv[j])@,
            placed[j].0,
        )
}

/// The recorded solution has parted ways with the current search path: at
/// some depth `f` it agrees with every placement before `f`, its piece at
/// `f` is no longer listed in frame `f`, and where a placement stands at
/// `f` it differs from it — so no continuation of the current path can
/// read this solution off again.
spec fn sol_diverges(
    sol: Puzzle,
    placed: Seq<(Piece, usize)>,
    stackv: Seq<Vec<(Piece, usize)>>,
) -> bool {
    exists|f: int|
        0 <= f < stackv.len() && f <= placed.len() && (forall|j: int|
            0 <= j < f ==> sol.pieces@[j] == (#[trigger] placed[j]).0) && !crate::pool::cands_lists(
            (#[trigger] stackv[f])@,
            sol.pieces@[f],
        ) && (f < placed.len() ==> sol.pieces@[f] != placed[f].0)
}

/// An orientation absent from a list is absent from any prefix of it.
proof fn lemma_not_listed_in_prefix(a: Seq<(Piece, usize)>, b: Seq<(Piece, usize)>, r: Piece)
    requires
        !crate::pool::cands_lists(b, r),
        a.len() <= b.len(),
        forall|j: int| 0 <= j < a.len() ==> #[trigger] a[j] == b[j],
    ensures
        !crate::pool::cands_lists(a, r),
{
    if crate::pool::cands_lists(a, r) {
        let j = choose|j: int| 0 <= j < a.len() && (#[trigger] a[j]).0 == r;
        assert(b[j].0 == r);
    }
}

/// Quarter turn `k` of the piece can anchor the search: the piece is
/// corner-class and that rotation shows `Border` on top and left.
pub open spec fn anchor_rotation(p: Piece, k: nat) -> bool {
    p.class == PositionClass::Corner && p.spec_rotate_n(k).top == Edge::Border
        && p.spec_rotate_n(k).left == Edge::Border
}

/// The pair `pr` is exactly the anchor the search starts from: the first
/// piece in input order with an anchoring rotation, turned by the first
/// anchoring number of quarter turns — the documented, fixed tie-break.
pub open spec fn is_anchor(pieces: Seq<Piece>, pr: (Piece, usize)) -> bool {
    &&& pr.1 < pieces.len()
    &&& exists|k: nat|
        k < 4 && #[trigger] anchor_rotation(pieces[pr.1 as int], k) && pr.0 == pieces[
            pr.1 as int].spec_rotate_n(k) && (forall|k2: nat|
            k2 < k ==> !(#[trigger] anchor_rotation(pieces[pr.1 as int], k2)))
    &&& forall|i2: int, k2: nat|
        0 <= i2 < pr.1 && k2 < 4 ==> !(#[trigger] anchor_rotation(pieces[i2], k2))
}

/// The collection holds a piece that can anchor the search: a
/// corner-class piece with a rotation showing `Border` on top and left.
pub open spec fn has_start_piece(pieces: Seq<Piece>) -> bool {
    exists|i: int, k: nat|
        0 <= i < pieces.len() && k < 4 && pieces[i].class == PositionClass::Corner && (
        #[trigger] pieces[i].spec_rotate_n(k)).top == Edge::Border && pieces[i].spec_rotate_n(
            k,
        ).left == Edge::Border
}

/// Every piece of the solution carries the class of the slot it sits in.
pub open spec fn classes_match(sol: Puzzle) -> bool {
    forall|i: int|
        0 <= i < sol.pieces@.len() ==> (#[trigger] sol.pieces@[i]).class == slot_class(
            i,
            sol.length as int,
            sol.height as int,
        )
}

/// What the solver promises of each returned puzzle: the source's
/// dimensions, one piece per cell, neighbouring sides mating everywhere,
/// each piece of its slot's class, the anchor orientation in the first
/// slot, and, up to rotation, exactly the source's piece collection — no
/// piece invented or dropped.
pub open spec fn valid_solution(sol: Puzzle, source: Puzzle) -> bool {
    &&& sol.length == source.length
    &&& sol.height == source.height
    &&& sol.pieces@.len() == sol.total()
    &&& sol.adjacent()
    &&& classes_match(sol)
    &&& (sol.pieces@.len() > 0 ==> sol.pieces@[0].top == Edge::Border && sol.pieces@[0].left
        == Edge::Border)
    &&& same_pieces_up_to_rotation(sol.pieces@, source.pieces@)
}

/// Computes the position class of the grid cell at row-major index `i`.
fn slot_class_at(i: usize, length: usize, height: usize) -> (c: PositionClass)
    requires
        length >= 1,
        height >= 1,
    ensures
        c == slot_class(i as int, length as int, height as int),
{
    let row = i / length;
    let col = i % length;
    let mut n: u8 = 0;
    if row == 0 {
        n = n + 1;
    }
    if row == height - 1 {
        n = n + 1;
    }
    if col == 0 {
        n = n + 1;
    }
    if col == length - 1 {
        n = n + 1;
    }
    if n == 0 {
        PositionClass::Inner
    } else if n == 1 {
        PositionClass::EdgeCell
    } else {
        PositionClass::Corner
    }
}

/// Finds the anchor placement: the first piece, in input order, of corner
/// class with a rotation showing `Border` on top and left, turned into
/// that rotation. Returns the rotation and the piece's input position, or
/// nothing when no piece qualifies.
fn find_start(pieces: &Vec<Piece>) -> (r: Option<(Piece, usize)>)
    ensures
        match r {
            Some(pr) => {
                &&& pr.1 < pieces@.len()
                &&& pr.0.is_rotation_of(pieces@[pr.1 as int])
                &&& pr.0.class == PositionClass::Corner
                &&& pr.0.top == Edge::Border
                &&& pr.0.left == Edge::Border
                &&& is_anchor(pieces@, pr)
            },
            None => !has_start_piece(pieces@),
        },
{
    let n = pieces.len();
    let mut i: usize = 0;
    while i < n
        invariant
            i <= n,
            n == pieces@.len(),
            forall|i2: int, k: nat|
                0 <= i2 < i && k < 4 ==> !(#[trigger] anchor_rotation(pieces@[i2], k)),
        decreases n - i,
    {
        let p = pieces[i];
        if p.class == PositionClass::Corner {
            let r0 = p;
            let r1 = r0.rotate();
            let r2 = r1.rotate();
            let r3 = r2.rotate();
            proof {
                assert(p.spec_rotate_n(0) == p);
                assert(p.spec_rotate_n(1) == p.spec_rotate_n(0).spec_rotate());
                assert(p.spec_rotate_n(2) == p.spec_rotate_n(1).spec_rotate());
                assert(p.spec_rotate_n(3) == p.spec_rotate_n(2).spec_rotate());
            }
            if r0.top == Edge::Border && r0.left == Edge::Border {
                proof {
                    assert(anchor_rotation(pieces@[i as int], 0));
                    assert(is_anchor(pieces@, (r0, i)));
                }
                return Some((r0, i));
            }
            if r1.top == Edge::Border && r1.left == Edge::Border {
                proof {
                    assert(anchor_rotation(pieces@[i as int], 1));
                    assert forall|k2: nat| k2 < 1 implies !anchor_rotation(
                        pieces@[i as int],
                        k2,
                    ) by {
                        assert(k2 == 0);
                    }
                    assert(is_anchor(pieces@, (r1, i)));
                }
                return Some((r1, i));
            }
            if r2.top == Edge::Border && r2.left == Edge::Border {
                proof {
                    assert(anchor_rotation(pieces@[i as int], 2));
                    assert forall|k2: nat| k2 < 2 implies !anchor_rotation(
                        pieces@[i as int],
                        k2,
                    ) by {
                        assert(k2 == 0 || k2 == 1);
                    }
                    assert(is_anchor(pieces@, (r2, i)));
                }
                return Some((r2, i));
            }
            if r3.top == Edge::Border && r3.left == Edge::Border {
                proof {
                    assert(anchor_rotation(pieces@[i as int], 3));
                    assert forall|k2: nat| k2 < 3 implies !anchor_rotation(
                        pieces@[i as int],
                        k2,
                    ) by {
                        assert(k2 == 0 || k2 == 1 || k2 == 2);
                    }
                    assert(is_anchor(pieces@, (r3, i)));
                }
                return Some((r3, i));
            }
            proof {
                assert forall|k: nat| k < 4 implies !anchor_rotation(pieces@[i as int], k) by {
                    if k == 0 {
                    } else if k == 1 {
                    } else if k == 2 {
                    } else {
                        assert(k == 3);
                    }
                }
            }
        } else {
            proof {
                assert forall|k: nat| k < 4 implies !anchor_rotation(pieces@[i as int], k) by {}
            }
        }
        i = i + 1;
    }
    proof {
        assert forall|i2: int, k: nat|
            0 <= i2 < pieces@.len() && k < 4 implies !(pieces@[i2].class == PositionClass::Corner
            && (#[trigger] pieces@[i2].spec_rotate_n(k)).top == Edge::Border && pieces@[
        i2].spec_rotate_n(k).left == Edge::Border) by {
            assert(!anchor_rotation(pieces@[i2], k));
        }
    }
    None
}

/// Placing a sound candidate for the next slot keeps the placement state
/// sound: its pool slot was occupied by the input piece the candidate is a
/// rotation of, and emptying that slot while appending the placement
/// re-establishes every clause.
proof fn lemma_place(
    placed: Seq<(Piece, usize)>,
    cand: (Piece, usize),
    slots: Seq<Option<Piece>>,
    inp: Seq<Piece>,
    length: int,
    height: int,
)
    requires
        placed_state_ok(placed, slots, inp, length, height),
        frame_cand_ok(cand, placed.len() as int, placed, inp, length, height),
        length >= 1,
        placed.len() < inp.len(),
    ensures
        slots[cand.1 as int] == Some(inp[cand.1 as int]),
        placed_state_ok(
            placed.push(cand),
            slots.update(cand.1 as int, None::<Piece>),
            inp,
            length,
            height,
        ),
{
    let placed1 = placed.push(cand);
    let slots1 = slots.update(cand.1 as int, None::<Piece>);
    assert(!placed_before(placed, placed.len() as int, cand.1 as int));
    assert forall|i: int|
        0 <= i < inp.len() implies #[trigger] slots1[i] == (if placed_before(
        placed1,
        placed1.len() as int,
        i,
    ) {
        None::<Piece>
    } else {
        Some(inp[i])
    }) by {
        if i == cand.1 as int {
            assert(placed1[placed.len() as int].1 == cand.1);
            assert(placed_before(placed1, placed1.len() as int, i));
        } else {
            if placed_before(placed1, placed1.len() as int, i) {
                let w = choose|w: int|
                    0 <= w < placed1.len() && (#[trigger] placed1[w]).1 as int == i;
                assert(w < placed.len());
                assert(placed[w].1 as int == i);
                assert(placed_before(placed, placed.len() as int, i));
            } else {
                assert forall|w: int|
                    0 <= w < placed.len() implies (#[trigger] placed[w]).1 as int != i by {
                    assert(placed1[w].1 as int != i);
                }
                assert(!placed_before(placed, placed.len() as int, i));
            }
        }
    }
    assert forall|a: int, b: int|
        0 <= a < b < placed1.len() implies (#[trigger] placed1[a]).1 != (
    #[trigger] placed1[b]).1 by {
        if b == placed.len() {
            if placed1[a].1 == cand.1 {
                assert(placed[a].1 == cand.1);
                assert(placed_before(placed, placed.len() as int, cand.1 as int));
            }
        } else {
            assert(placed[a].1 != placed[b].1);
        }
    }
    assert forall|j: int|
        0 <= j < placed1.len() implies (#[trigger] placed1[j]).1 < inp.len()
        && placed1[j].0.is_rotation_of(inp[placed1[j].1 as int]) by {
        if j < placed.len() {
            assert(placed[j].1 < inp.len());
            assert(placed[j].0.is_rotation_of(inp[placed[j].1 as int]));
        } else {
            assert(placed1[j] == cand);
        }
    }
    assert forall|j: int|
        0 <= j < placed1.len() implies #[trigger] candidate_fits(
        placed1[j].0,
        j,
        placed1,
        length,
        height,
    ) by {
        if j < placed.len() {
            assert(candidate_fits(placed[j].0, j, placed, length, height));
            if j >= 1 {
                assert(placed1[j - 1] == placed[j - 1]);
            }
            if j >= length {
                assert(placed1[j - length] == placed[j - length]);
            }
        } else {
            assert(placed1[j] == cand);
            assert(candidate_fits(cand.0, placed.len() as int, placed, length, height));
            if j >= 1 {
                assert(placed1[j - 1] == placed[j - 1]);
            }
            if j >= length {
                assert(placed1[j - length] == placed[j - length]);
            }
        }
    }
}

/// Undoing the last placement keeps the placement state sound: its pool
/// slot is empty, and refilling it with the input piece it came from while
/// dropping the placement re-establishes every clause.
proof fn lemma_unplace(
    placed: Seq<(Piece, usize)>,
    slots: Seq<Option<Piece>>,
    inp: Seq<Piece>,
    length: int,
    height: int,
)
    requires
        placed_state_ok(placed, slots, inp, length, height),
        placed.len() >= 1,
        length >= 1,
    ensures
        slots[placed[placed.len() - 1].1 as int] is None,
        placed_state_ok(
            placed.subrange(0, placed.len() - 1),
            slots.update(
                placed[placed.len() - 1].1 as int,
                Some(inp[placed[placed.len() - 1].1 as int]),
            ),
            inp,
            length,
            height,
        ),
{
    let last = placed[placed.len() - 1];
    assert(placed_before(placed, placed.len() as int, last.1 as int));
    let placed1 = placed.subrange(0, placed.len() - 1);
    let slots1 = slots.update(last.1 as int, Some(inp[last.1 as int]));
    assert forall|i: int|
        0 <= i < inp.len() implies #[trigger] slots1[i] == (if placed_before(
        placed1,
        placed1.len() as int,
        i,
    ) {
        None::<Piece>
    } else {
        Some(inp[i])
    }) by {
        if i == last.1 as int {
            assert forall|w: int|
                0 <= w < placed1.len() implies (#[trigger] placed1[w]).1 as int != i by {
                assert(placed[w].1 != placed[placed.len() - 1].1);
            }
            assert(!placed_before(placed1, placed1.len() as int, i));
        } else {
            if placed_before(placed1, placed1.len() as int, i) {
                let w = choose|w: int|
                    0 <= w < placed1.len() && (#[trigger] placed1[w]).1 as int == i;
                assert(placed[w].1 as int == i);
                assert(placed_before(placed, placed.len() as int, i));
            } else {
                assert forall|w: int|
                    0 <= w < placed.len() implies (#[trigger] placed[w]).1 as int != i by {
                    if w < placed.len() - 1 {
                        assert(placed1[w].1 as int != i);
                    } else {
                        assert(placed[w].1 == last.1);
                    }
                }
                assert(!placed_before(placed, placed.len() as int, i));
            }
        }
    }
    assert forall|j: int|
        0 <= j < placed1.len() implies (#[trigger] placed1[j]).1 < inp.len()
        && placed1[j].0.is_rotation_of(inp[placed1[j].1 as int]) by {
        assert(placed1[j] == placed[j]);
        assert(placed[j].1 < inp.len());
        assert(placed[j].0.is_rotation_of(inp[placed[j].1 as int]));
    }
    assert forall|j: int|
        0 <= j < placed1.len() implies #[trigger] candidate_fits(
        placed1[j].0,
        j,
        placed1,
        length,
        height,
    ) by {
        assert(candidate_fits(placed[j].0, j, placed, length, height));
        if j >= 1 {
            assert(placed1[j - 1] == placed[j - 1]);
        }
        if j >= length {
            assert(placed1[j - length] == placed[j - length]);
        }
    }
}

/// Stack frames stay sound when a placement is appended: each frame `f`
/// constrains only the placements before `f`, which an append leaves
/// untouched.
proof fn lemma_frames_place(
    stackv: Seq<Vec<(Piece, usize)>>,
    placed: Seq<(Piece, usize)>,
    cand: (Piece, usize),
    inp: Seq<Piece>,
    length: int,
    height: int,
)
    requires
        frames_ok(stackv, placed, inp, length, height),
        stackv.len() <= placed.len() + 1,
        length >= 1,
    ensures
        frames_ok(stackv, placed.push(cand), inp, length, height),
{
    let placed1 = placed.push(cand);
    assert forall|f: int, c: int|
        0 <= f < stackv.len() && 0 <= c < stackv[f]@.len() implies frame_cand_ok(
        #[trigger] stackv[f]@[c],
        f,
        placed1,
        inp,
        length,
        height,
    ) by {
        let cd = stackv[f]@[c];
        assert(frame_cand_ok(cd, f, placed, inp, length, height));
        if placed_before(placed1, f, cd.1 as int) {
            let w = choose|w: int| 0 <= w < f && (#[trigger] placed1[w]).1 as int == cd.1 as int;
            assert(placed[w].1 as int == cd.1 as int);
            assert(placed_before(placed, f, cd.1 as int));
        }
        if f >= 1 {
            assert(placed1[f - 1] == placed[f - 1]);
        }
        if f >= length {
            assert(placed1[f - length] == placed[f - length]);
        }
    }
}

/// Stack frames stay sound when the last placement is dropped, as long as
/// no remaining frame sits deeper than the shortened placement sequence.
proof fn lemma_frames_unplace(
    stackv: Seq<Vec<(Piece, usize)>>,
    placed: Seq<(Piece, usize)>,
    inp: Seq<Piece>,
    length: int,
    height: int,
)
    requires
        frames_ok(stackv, placed, inp, length, height),
        placed.len() >= 1,
        stackv.len() <= placed.len(),
        length >= 1,
    ensures
        frames_ok(stackv, placed.subrange(0, placed.len() - 1), inp, length, height),
{
    let placed1 = placed.subrange(0, placed.len() - 1);
    assert forall|f: int, c: int|
        0 <= f < stackv.len() && 0 <= c < stackv[f]@.len() implies frame_cand_ok(
        #[trigger] stackv[f]@[c],
        f,
        placed1,
        inp,
        length,
        height,
    ) by {
        let cd = stackv[f]@[c];
        assert(frame_cand_ok(cd, f, placed, inp, length, height));
        if placed_before(placed1, f, cd.1 as int) {
            let w = choose|w: int| 0 <= w < f && (#[trigger] placed1[w]).1 as int == cd.1 as int;
            assert(placed[w].1 as int == cd.1 as int);
            assert(placed_before(placed, f, cd.1 as int));
        }
        if f >= 1 {
            assert(placed1[f - 1] == placed[f - 1]);
        }
        if f >= length {
            assert(placed1[f - length] == placed[f - length]);
        }
    }
}

/// A candidate list drawn from the pool for the next slot, against the
/// wanted class and sides of that slot, is sound frame content for it.
proof fn lemma_new_frame(
    frame: Seq<(Piece, usize)>,
    placed: Seq<(Piece, usize)>,
    slots: Seq<Option<Piece>>,
    inp: Seq<Piece>,
    length: int,
    height: int,
    want_class: PositionClass,
    want_left: Edge,
    want_top: Option<Edge>,
)
    requires
        placed_state_ok(placed, slots, inp, length, height),
        forall|c: int|
            0 <= c < frame.len() ==> cand_ok(#[trigger] frame[c], slots, want_class, want_left, want_top),
        placed.len() >= 1,
        want_class == slot_class(placed.len() as int, length, height),
        want_left == placed[placed.len() - 1].0.right.spec_inverse(),
        placed.len() >= length ==> want_top == Some(
            placed[placed.len() - length].0.bottom.spec_inverse(),
        ),
        placed.len() < length ==> want_top is None,
    ensures
        forall|c: int|
            0 <= c < frame.len() ==> frame_cand_ok(
                #[trigger] frame[c],
                placed.len() as int,
                placed,
                inp,
                length,
                height,
            ),
{
    let k = placed.len() as int;
    assert forall|c: int|
        0 <= c < frame.len() implies frame_cand_ok(
        #[trigger] frame[c],
        k,
        placed,
        inp,
        length,
        height,
    ) by {
        let cd = frame[c];
        assert(cand_ok(cd, slots, want_class, want_left, want_top));
        assert(slots[cd.1 as int] is Some);
        assert(!placed_before(placed, k, cd.1 as int));
        assert(slots[cd.1 as int] == Some(inp[cd.1 as int]));
    }
}

/// What the backtracking state gives of a freshly completed placement
/// sequence: the puzzle read off it is a complete, mating, slot-classed
/// grid carrying, up to rotation, exactly the source collection.
proof fn lemma_solution_valid(sol: Puzzle, source: Puzzle, placed: Seq<(Piece, usize)>)
    requires
        sol.length == source.length,
        sol.height == source.height,
        sol.length >= 1,
        sol.height >= 1,
        placed.len() == source.pieces@.len(),
        placed.len() == sol.length * sol.height,
        sol.pieces@.len() == placed.len(),
        forall|x: int| 0 <= x < placed.len() ==> sol.pieces@[x] == (#[trigger] placed[x]).0,
        forall|a: int, b: int|
            0 <= a < b < placed.len() ==> (#[trigger] placed[a]).1 != (#[trigger] placed[b]).1,
        forall|j: int|
            0 <= j < placed.len() ==> (#[trigger] placed[j]).1 < placed.len()
                && placed[j].0.is_rotation_of(source.pieces@[placed[j].1 as int]),
        forall|j: int|
            0 <= j < placed.len() ==> #[trigger] candidate_fits(
                placed[j].0,
                j,
                placed,
                sol.length as int,
                sol.height as int,
            ),
    ensures
        valid_solution(sol, source),
{
    let length = sol.length as int;
    let height = sol.height as int;
    let total = placed.len() as int;
    assert(sol.total() == total);
    assert(total >= 1) by (nonlinear_arith)
        requires
            total == length * height,
            length >= 1,
            height >= 1,
    ;
    assert forall|i: int| 0 <= i < sol.pieces@.len() implies #[trigger] sol.adjacent_ok_at(i) by {
        assert(candidate_fits(placed[i].0, i, placed, length, height));
        if grid_col(i, length) != 0 {
            lemma_grid_prev_cell(i, length);
            assert(sol.pieces@[i].left == placed[i - 1].0.right.spec_inverse());
        }
        if grid_row(i, length) != 0 {
            lemma_grid_above_cell(i, length);
            assert(sol.pieces@[i].top == placed[i - length].0.bottom.spec_inverse());
        }
    }
    assert forall|i: int|
        0 <= i < sol.pieces@.len() implies (#[trigger] sol.pieces@[i]).class == slot_class(
        i,
        length,
        height,
    ) by {
        assert(candidate_fits(placed[i].0, i, placed, length, height));
    }
    assert(candidate_fits(placed[0].0, 0, placed, length, height));
    let idxs = placed.map_values(|pr: (Piece, usize)| pr.1 as int);
    assert(idxs.no_duplicates()) by {
        assert forall|a: int, b: int|
            0 <= a < idxs.len() && 0 <= b < idxs.len() && a != b implies idxs[a] != idxs[b] by {
            assert(idxs[a] == (#[trigger] placed[a]).1 as int);
            assert(idxs[b] == (#[trigger] placed[b]).1 as int);
            if a < b {
                assert(placed[a].1 != placed[b].1);
            } else {
                assert(placed[b].1 != placed[a].1);
            }
        }
    }
    assert forall|x: int|
        0 <= x < idxs.len() implies 0 <= #[trigger] idxs[x] < source.pieces@.len() by {
        assert((#[trigger] placed[x]).1 < placed.len());
    }
    lemma_index_map_multiset(idxs, source.pieces@);
    let mid = idxs.map_values(|j: int| source.pieces@[j]);
    assert(mid.to_multiset() == source.pieces@.to_multiset());
    assert forall|x: int|
        0 <= x < sol.pieces@.len() implies (#[trigger] sol.pieces@[x]).is_rotation_of(mid[x]) by {
        assert(idxs[x] == placed[x].1 as int);
        assert(mid[x] == source.pieces@[idxs[x]]);
        assert(placed[x].0.is_rotation_of(source.pieces@[placed[x].1 as int]));
    }
    assert(same_pieces_up_to_rotation(sol.pieces@, source.pieces@));
}

/// The termination measure of the search: each frame's candidate count,
/// weighted so that frames near the bottom of the stack weigh more than
/// everything that can ever stand above them. Consuming a candidate of
/// frame `f` then outweighs the whole frame pushed for the slot after it,
/// and every loop step drives the measure down.
spec fn frames_pot(stackv: Seq<Vec<(Piece, usize)>>, b: int, d: nat) -> int
    decreases stackv.len(),
{
    if stackv.len() == 0 {
        0
    } else {
        stackv[0]@.len() * pow(b, d) + frames_pot(stackv.drop_first(), b, (d - 1) as nat)
    }
}

/// The measure is never negative.
proof fn lemma_frames_pot_nonneg(stackv: Seq<Vec<(Piece, usize)>>, b: int, d: nat)
    requires
        b >= 1,
    ensures
        frames_pot(stackv, b, d) >= 0,
    decreases stackv.len(),
{
    if stackv.len() > 0 {
        lemma_pow_positive(b, d);
        let l = stackv[0]@.len() as int;
        assert(l * pow(b, d) >= 0) by (nonlinear_arith)
            requires
                l >= 0,
                pow(b, d) > 0,
        ;
        lemma_frames_pot_nonneg(stackv.drop_first(), b, (d - 1) as nat);
    }
}

/// Appending a frame adds its candidate count at the weight of its depth.
proof fn lemma_frames_pot_push(
    stackv: Seq<Vec<(Piece, usize)>>,
    x: Vec<(Piece, usize)>,
    b: int,
    d: nat,
)
    requires
        d >= stackv.len(),
    ensures
        frames_pot(stackv.push(x), b, d) == frames_pot(stackv, b, d) + x@.len() * pow(
            b,
            (d - stackv.len()) as nat,
        ),
    decreases stackv.len(),
{
    if stackv.len() == 0 {
        assert(stackv.push(x)[0] == x);
        assert(stackv.push(x).drop_first() =~= stackv);
        assert(frames_pot(stackv.push(x), b, d) == x@.len() * pow(b, d) + frames_pot(
            stackv,
            b,
            (d - 1) as nat,
        ));
        assert((d - stackv.len()) as nat == d);
    } else {
        let rest = stackv.drop_first();
        assert(stackv.push(x)[0] == stackv[0]);
        assert(stackv.push(x).drop_first() =~= rest.push(x));
        lemma_frames_pot_push(rest, x, b, (d - 1) as nat);
        assert(frames_pot(stackv.push(x), b, d) == stackv[0]@.len() * pow(b, d) + frames_pot(
            rest.push(x),
            b,
            (d - 1) as nat,
        ));
        assert(((d - 1) as nat) - rest.len() == d - stackv.len());
        assert(frames_pot(rest.push(x), b, (d - 1) as nat) == frames_pot(rest, b, (d - 1) as nat)
            + x@.len() * pow(b, (d - stackv.len()) as nat));
        assert(frames_pot(stackv, b, d) == stackv[0]@.len() * pow(b, d) + frames_pot(
            rest,
            b,
            (d - 1) as nat,
        ));
    }
}

/// The measure splits off the deepest frame at the weight of its depth.
proof fn lemma_frames_pot_last(stackv: Seq<Vec<(Piece, usize)>>, b: int, d: nat)
    requires
        stackv.len() >= 1,
        d >= stackv.len() - 1,
    ensures
        frames_pot(stackv, b, d) == frames_pot(stackv.drop_last(), b, d) + stackv.last()@.len()
            * pow(b, (d - (stackv.len() - 1)) as nat),
{
    assert(stackv =~= stackv.drop_last().push(stackv.last()));
    lemma_frames_pot_push(stackv.drop_last(), stackv.last(), b, d);
}

impl Puzzle {
    /// Enumerates up to `max_solutions` distinct reassemblies of this
    /// puzzle's piece collection, treating the collection as an unordered
    /// bag: piece order carries no information, and every piece may be
    /// placed in any of its four rotations.
    ///
    /// The search is iterative backtracking over an explicit stack of
    /// per-depth candidate lists. It is anchored by the first piece, in
    /// input order, of corner class that can be turned to show `Border` on
    /// top and left; fixing that orientation in the first slot breaks the
    /// grid's four-fold rotational symmetry. Only assemblies rooted at
    /// that one anchor are enumerated: on a square grid every corner piece
    /// of a real assembly can anchor one of its four grid rotations, but
    /// on an oblong grid a corner-class piece that belongs away from the
    /// two anchorable corners may be chosen — first in input order — and
    /// then the search proves its rooted tree empty and returns no
    /// solutions, even when assemblies rooted elsewhere exist. Duplicate
    /// piece values are interchangeable: each input copy can be consumed
    /// once, and arrangements differing only by exchanging equal pieces
    /// are counted once.
    ///
    /// Malformed input is reported apart from an exhausted search: a
    /// collection whose size is not one piece per cell gives
    /// `WrongPieceCount`, and one with no anchor piece gives
    /// `NoStartPiece`. Otherwise the result lists, in discovery order, up
    /// to `max_solutions` complete puzzles, each freshly built, mating
    /// everywhere, classed slot by slot, and holding — up to rotation —
    /// exactly the input pieces. The search terminates because every step
    /// either consumes a candidate or pops a frame, and a consumed
    /// candidate outweighs the one frame pushed above it.
    #[verifier::rlimit(100)]
    pub fn solve(&self, max_solutions: usize) -> (r: Result<Vec<Puzzle>, SolveError>)
        ensures
            match r {
                Ok(sols) => {
                    &&& self.pieces@.len() == self.total()
                    &&& has_start_piece(self.pieces@)
                    &&& sols@.len() <= max_solutions
                    &&& (forall|s: int|
                        0 <= s < sols@.len() ==> valid_solution(#[trigger] sols@[s], *self))
                    &&& (forall|s1: int, s2: int|
                        0 <= s1 < s2 < sols@.len() ==> (#[trigger] sols@[s1]).pieces@ != (
                        #[trigger] sols@[s2]).pieces@)
                    &&& (self.total() == 1 && max_solutions >= 1 ==> sols@.len() >= 1)
                },
                Err(SolveError::WrongPieceCount) => self.pieces@.len() != self.total(),
                Err(SolveError::NoStartPiece) => self.pieces@.len() == self.total()
                    && !has_start_piece(self.pieces@),
            },
    {
        let length = self.length;
        let height = self.height;
        let count = self.pieces.len();
        let total = match length.checked_mul(height) {
            Some(t) => t,
            None => {
                proof {
                    assert(count <= usize::MAX < self.total());
                }
                return Err(SolveError::WrongPieceCount);
            },
        };
        if count != total {
            return Err(SolveError::WrongPieceCount);
        }
        let (start, start_idx) = match find_start(&self.pieces) {
            Some(pr) => pr,
            None => {
                return Err(SolveError::NoStartPiece);
            },
        };
        proof {
            assert(total >= 1);
            assert(length >= 1 && height >= 1) by (nonlinear_arith)
                requires
                    total as int == length as int * height as int,
                    total >= 1,
            ;
            assert(has_start_piece(self.pieces@)) by {
                let p0 = self.pieces@[start_idx as int];
                assert(start.is_rotation_of(p0));
                let k = choose|k: nat| k < 4 && start == p0.spec_rotate_n(k);
                assert(p0.spec_rotate_n(0) == p0);
                assert(p0.spec_rotate_n(1) == p0.spec_rotate_n(0).spec_rotate());
                assert(p0.spec_rotate_n(2) == p0.spec_rotate_n(1).spec_rotate());
                assert(p0.spec_rotate_n(3) == p0.spec_rotate_n(2).spec_rotate());
                assert(k == 0 || k == 1 || k == 2 || k == 3);
                assert(p0.spec_rotate_n(k).class == p0.class);
                assert(p0.spec_rotate_n(k).top == Edge::Border);
                assert(p0.spec_rotate_n(k).left == Edge::Border);
            }
        }
        let mut pool = Pool::new(&self.pieces);
        let mut placed: Vec<(Piece, usize)> = Vec::new();
        let mut stack: Vec<Vec<(Piece, usize)>> = Vec::new();
        let mut first_frame: Vec<(Piece, usize)> = Vec::new();
        first_frame.push((start, start_idx));
        stack.push(first_frame);
        proof {
            lemma_grid_origin(length as int);
            assert(slot_class(0, length as int, height as int) == PositionClass::Corner);
            assert(frame_cand_ok(
                (start, start_idx),
                0,
                placed@,
                self.pieces@,
                length as int,
                height as int,
            ));
        }
        let mut sols: Vec<Puzzle> = Vec::new();
        let ghost bb: int = 16 * total + 2;
        let ghost dd: nat = total as nat;
        while stack.len() > 0 && sols.len() < max_solutions
            invariant
                total == self.total(),
                total == self.pieces@.len(),
                total >= 1,
                length == self.length,
                height == self.height,
                length >= 1,
                height >= 1,
                has_start_piece(self.pieces@),
                pool.wf(),
                pool.coherent(),
                forall|i: int|
                    0 <= i < total ==> pool.piece_indexed(#[trigger] self.pieces@[i], i),
                pool.slots@.len() == total,
                stack@.len() == 0 ==> placed@.len() == 0,
                stack@.len() > 0 ==> stack@.len() == placed@.len() + 1,
                stack@.len() > 0 ==> placed@.len() < total,
                placed@.len() <= total,
                stack@.len() <= total,
                bb == 16 * total + 2,
                dd == total as nat,
                forall|f: int| 0 <= f < stack@.len() ==> (#[trigger] stack@[f])@.len() <= 16 * total,
                placed_state_ok(placed@, pool.slots@, self.pieces@, length as int, height as int),
                frames_ok(stack@, placed@, self.pieces@, length as int, height as int),
                sols@.len() <= max_solutions,
                forall|s: int|
                    0 <= s < sols@.len() ==> valid_solution(#[trigger] sols@[s], *self),
                frame_values_distinct(stack@),
                placed_blocked(stack@, placed@),
                stack@.len() > 0 ==> forall|s: int|
                    0 <= s < sols@.len() ==> sol_diverges(#[trigger] sols@[s], placed@, stack@),
                forall|s1: int, s2: int|
                    0 <= s1 < s2 < sols@.len() ==> (#[trigger] sols@[s1]).pieces@ != (
                    #[trigger] sols@[s2]).pieces@,
                total == 1 && max_solutions >= 1 ==> (sols@.len() >= 1 || (stack@.len() == 1
                    && stack@[0]@.len() == 1 && placed@.len() == 0)),
            decreases frames_pot(stack@, 16 * total + 2, total as nat) + stack@.len(),
        {
            let fidx = stack.len() - 1;
            let ghost stack0 = stack@;
            proof {
                lemma_frames_pot_last(stack0, bb, dd);
                lemma_pow_positive(bb, (dd - fidx) as nat);
            }
            let copt = stack[fidx].pop();
            proof {
                assert(stack@.drop_last() =~= stack0.drop_last());
                lemma_frames_pot_last(stack@, bb, dd);
                assert forall|f: int|
                    0 <= f < stack@.len() implies (#[trigger] stack@[f])@.len() <= 16 * total by {
                    if f != fidx {
                        assert(stack@[f] == stack0[f]);
                    }
                }
                assert forall|f: int, c: int|
                    0 <= f < stack@.len() && 0 <= c < stack@[f]@.len() implies frame_cand_ok(
                    #[trigger] stack@[f]@[c],
                    f,
                    placed@,
                    self.pieces@,
                    length as int,
                    height as int,
                ) by {
                    assert(stack@[f]@[c] == stack0[f]@[c]);
                    assert(frame_cand_ok(
                        stack0[f]@[c],
                        f,
                        placed@,
                        self.pieces@,
                        length as int,
                        height as int,
                    ));
                }
                assert(stack@[fidx as int]@.len() <= stack0[fidx as int]@.len());
                assert forall|f: int, c1: int, c2: int|
                    0 <= f < stack@.len() && 0 <= c1 < c2 < stack@[f]@.len() implies (
                #[trigger] stack@[f]@[c1]).0 != (#[trigger] stack@[f]@[c2]).0 by {
                    assert(stack@[f]@[c1] == stack0[f]@[c1]);
                    assert(stack@[f]@[c2] == stack0[f]@[c2]);
                    assert(stack0[f]@[c1].0 != stack0[f]@[c2].0);
                }
                assert forall|j: int|
                    0 <= j < placed@.len() && j < stack@.len() implies !crate::pool::cands_lists(
                    (#[trigger] stack@[j])@,
                    placed@[j].0,
                ) by {
                    assert(!crate::pool::cands_lists(stack0[j]@, placed@[j].0));
                    lemma_not_listed_in_prefix(stack@[j]@, stack0[j]@, placed@[j].0);
                }
                if sols@.len() > 0 {
                    assert forall|s: int|
                        0 <= s < sols@.len() implies sol_diverges(
                        #[trigger] sols@[s],
                        placed@,
                        stack@,
                    ) by {
                        assert(sol_diverges(sols@[s], placed@, stack0));
                        let f = choose|f: int|
                            0 <= f < stack0.len() && f <= placed@.len() && (forall|j: int|
                                0 <= j < f ==> sols@[s].pieces@[j] == (#[trigger] placed@[j]).0)
                                && !crate::pool::cands_lists((#[trigger] stack0[f])@, sols@[
                            s].pieces@[f]) && (f < placed@.len() ==> sols@[s].pieces@[f]
                                != placed@[f].0);
                        lemma_not_listed_in_prefix(stack@[f]@, stack0[f]@, sols@[s].pieces@[f]);
                        assert(sol_diverges(sols@[s], placed@, stack@));
                    }
                }
            }
            match copt {
                Some(cand) => {
                    let idx = cand.1;
                    let ghost placed0 = placed@;
                    let ghost slots0 = pool.slots@;
                    let ghost old_pool_for_index = pool;
                    proof {
                        assert(frame_cand_ok(
                            cand,
                            fidx as int,
                            placed@,
                            self.pieces@,
                            length as int,
                            height as int,
                        ));
                        lemma_place(
                            placed0,
                            cand,
                            slots0,
                            self.pieces@,
                            length as int,
                            height as int,
                        );
                        lemma_frames_place(
                            stack@,
                            placed0,
                            cand,
                            self.pieces@,
                            length as int,
                            height as int,
                        );
                    }
                    pool.remove(idx);
                    proof {
                        assert forall|i: int|
                            0 <= i < total implies pool.piece_indexed(
                            #[trigger] self.pieces@[i],
                            i,
                        ) by {
                            assert(pool.class_buckets(self.pieces@[i].class)
                                == old_pool_for_index.class_buckets(self.pieces@[i].class));
                            assert(old_pool_for_index.piece_indexed(self.pieces@[i], i));
                        }
                    }
                    proof {
                        assert(!crate::pool::cands_lists(stack@[fidx as int]@, cand.0)) by {
                            if crate::pool::cands_lists(stack@[fidx as int]@, cand.0) {
                                let c2 = choose|c2: int|
                                    0 <= c2 < stack@[fidx as int]@.len() && (#[trigger] stack@[
                                fidx as int]@[c2]).0 == cand.0;
                                assert(stack0[fidx as int]@[c2] == stack@[fidx as int]@[c2]);
                                assert(stack0[fidx as int]@[stack0[fidx as int]@.len() - 1]
                                    == cand);
                                assert(stack0[fidx as int]@[c2].0 != stack0[fidx as int]@[stack0[
                                fidx as int]@.len() - 1].0);
                            }
                        }
                    }
                    placed.push(cand);
                    proof {
                        assert forall|j: int|
                            0 <= j < placed@.len() && j < stack@.len()
                            implies !crate::pool::cands_lists(
                            (#[trigger] stack@[j])@,
                            placed@[j].0,
                        ) by {
                            if j < placed0.len() {
                                assert(placed@[j] == placed0[j]);
                                assert(!crate::pool::cands_lists(stack@[j]@, placed0[j].0));
                            } else {
                                assert(placed@[j] == cand);
                            }
                        }
                        if sols@.len() > 0 {
                            assert forall|s: int|
                                0 <= s < sols@.len() implies sol_diverges(
                                #[trigger] sols@[s],
                                placed@,
                                stack@,
                            ) by {
                                assert(sol_diverges(sols@[s], placed0, stack0));
                                let f = choose|f: int|
                                    0 <= f < stack0.len() && f <= placed0.len() && (forall|j: int|
                                        0 <= j < f ==> sols@[s].pieces@[j] == (#[trigger] placed0[
                                    j]).0) && !crate::pool::cands_lists((#[trigger] stack0[f])@,
                                    sols@[s].pieces@[f]) && (f < placed0.len() ==> sols@[
                                    s].pieces@[f] != placed0[f].0);
                                lemma_not_listed_in_prefix(
                                    stack@[f]@,
                                    stack0[f]@,
                                    sols@[s].pieces@[f],
                                );
                                assert forall|j: int|
                                    0 <= j < f implies sols@[s].pieces@[j] == (#[trigger] placed@[
                                j]).0 by {
                                    assert(placed@[j] == placed0[j]);
                                }
                                if f < placed@.len() {
                                    if f == placed0.len() {
                                        assert(placed@[f] == cand);
                                        assert(crate::pool::cands_lists(
                                            stack0[fidx as int]@,
                                            cand.0,
                                        )) by {
                                            assert(stack0[fidx as int]@[stack0[
                                            fidx as int]@.len() - 1].0 == cand.0);
                                        }
                                        assert(sols@[s].pieces@[f] != cand.0);
                                    } else {
                                        assert(placed@[f] == placed0[f]);
                                    }
                                }
                                assert(sol_diverges(sols@[s], placed@, stack@));
                            }
                        }
                    }
                    if placed.len() == total {
                        let mut sol_pieces: Vec<Piece> = Vec::new();
                        let mut q: usize = 0;
                        while q < total
                            invariant
                                q <= total,
                                placed@.len() == total,
                                sol_pieces@.len() == q,
                                forall|x: int|
                                    0 <= x < q ==> sol_pieces@[x] == (#[trigger] placed@[x]).0,
                            decreases total - q,
                        {
                            sol_pieces.push(placed[q].0);
                            q = q + 1;
                        }
                        let sol = Puzzle { length, height, pieces: sol_pieces };
                        proof {
                            lemma_solution_valid(sol, *self, placed@);
                        }
                        let ghost sols0 = sols@;
                        let ghost placed_full = placed@;
                        sols.push(sol);
                        let back = placed.pop();
                        match back {
                            Some(pr) => {
                                proof {
                                    lemma_unplace(
                                        placed0.push(cand),
                                        pool.slots@,
                                        self.pieces@,
                                        length as int,
                                        height as int,
                                    );
                                    assert(placed@ =~= placed0);
                                    assert(pr == cand);
                                    assert(pool.slots@.update(
                                        pr.1 as int,
                                        Some(self.pieces@[pr.1 as int]),
                                    ) =~= slots0);
                                }
                                let give_back = self.pieces[pr.1];
                                let ghost pre_restore = pool;
                                pool.restore(pr.1, give_back);
                                proof {
                                    assert(pre_restore.piece_indexed(give_back, pr.1 as int));
                                    assert forall|i: int|
                                        0 <= i < total implies pool.piece_indexed(
                                        #[trigger] self.pieces@[i],
                                        i,
                                    ) by {
                                        assert(pool.class_buckets(self.pieces@[i].class)
                                            == pre_restore.class_buckets(self.pieces@[i].class));
                                        assert(pre_restore.piece_indexed(self.pieces@[i], i));
                                    }
                                    assert(sol.pieces@.len() == total);
                                    assert forall|x: int|
                                        0 <= x < total implies sol.pieces@[x] == placed_full[
                                    x].0 by {}
                                    assert forall|s: int|
                                        0 <= s < sols0.len() implies (#[trigger] sols0[s]).pieces@
                                        != sol.pieces@ && sol_diverges(
                                        sols0[s],
                                        placed@,
                                        stack@,
                                    ) by {
                                        assert(sol_diverges(sols0[s], placed0, stack0));
                                        let f = choose|f: int|
                                            0 <= f < stack0.len() && f <= placed0.len() && (
                                            forall|j: int|
                                                0 <= j < f ==> sols0[s].pieces@[j] == (
                                                #[trigger] placed0[j]).0)
                                                && !crate::pool::cands_lists(
                                                (#[trigger] stack0[f])@,
                                                sols0[s].pieces@[f],
                                            ) && (f < placed0.len() ==> sols0[s].pieces@[f]
                                                != placed0[f].0);
                                        if f < placed0.len() {
                                            assert(sol.pieces@[f] == placed_full[f].0);
                                            assert(placed_full[f] == placed0[f]);
                                            assert(sols0[s].pieces@[f] != sol.pieces@[f]);
                                        } else {
                                            assert(f == placed0.len() && f == fidx as int);
                                            assert(crate::pool::cands_lists(
                                                stack0[fidx as int]@,
                                                cand.0,
                                            )) by {
                                                assert(stack0[fidx as int]@[stack0[
                                                fidx as int]@.len() - 1].0 == cand.0);
                                            }
                                            assert(sols0[s].pieces@[f] != cand.0);
                                            assert(sol.pieces@[f] == placed_full[f].0);
                                            assert(placed_full[f].0 == cand.0);
                                        }
                                        assert(sols0[s].pieces@ != sol.pieces@);
                                        lemma_not_listed_in_prefix(
                                            stack@[f]@,
                                            stack0[f]@,
                                            sols0[s].pieces@[f],
                                        );
                                        assert forall|j: int|
                                            0 <= j < f implies sols0[s].pieces@[j] == (
                                        #[trigger] placed@[j]).0 by {
                                            assert(placed@[j] == placed0[j]);
                                        }
                                        assert(sol_diverges(sols0[s], placed@, stack@));
                                    }
                                    assert(sol_diverges(sol, placed@, stack@)) by {
                                        let f = fidx as int;
                                        assert forall|j: int|
                                            0 <= j < f implies sol.pieces@[j] == (
                                        #[trigger] placed@[j]).0 by {
                                            assert(placed@[j] == placed0[j]);
                                            assert(placed_full[j] == placed0[j]);
                                        }
                                        assert(!crate::pool::cands_lists(
                                            stack@[f]@,
                                            sol.pieces@[f],
                                        )) by {
                                            assert(sol.pieces@[f] == cand.0);
                                            assert(!crate::pool::cands_lists(
                                                stack@[fidx as int]@,
                                                cand.0,
                                            ));
                                        }
                                        assert(f <= placed@.len());
                                    }
                                }
                            },
                            None => {},
                        }
                        proof {
                            lemma_frames_pot_last(stack0, bb, dd);
                            lemma_frames_pot_last(stack@, bb, dd);
                            assert(stack@.drop_last() =~= stack0.drop_last());
                            assert(stack0.len() - 1 == fidx && stack@.len() - 1 == fidx);
                            assert(stack@.last()@.len() + 1 == stack0.last()@.len());
                            let l0: int = stack0.last()@.len() as int;
                            let l1: int = stack@.last()@.len() as int;
                            let p: int = pow(bb, (dd - fidx) as nat);
                            assert(l1 * p == l0 * p - p) by (nonlinear_arith)
                                requires
                                    l1 == l0 - 1,
                            ;
                            lemma_pow_positive(bb, (dd - fidx) as nat);
                            lemma_frames_pot_nonneg(stack@, bb, dd);
                        }
                    } else {
                        let knew = placed.len();
                        let want_class = slot_class_at(knew, length, height);
                        let want_left = placed[knew - 1].0.right.inverse();
                        let want_top = if knew >= length {
                            Some(placed[knew - length].0.bottom.inverse())
                        } else {
                            None
                        };
                        let frame = pool.candidates(want_class, want_left, want_top);
                        proof {
                            lemma_new_frame(
                                frame@,
                                placed@,
                                pool.slots@,
                                self.pieces@,
                                length as int,
                                height as int,
                                want_class,
                                want_left,
                                want_top,
                            );
                            assert forall|f: int, c: int|
                                0 <= f < stack@.len() + 1 && 0 <= c < stack@.push(frame)[f]@.len()
                                implies frame_cand_ok(
                                #[trigger] stack@.push(frame)[f]@[c],
                                f,
                                placed@,
                                self.pieces@,
                                length as int,
                                height as int,
                            ) by {
                                if f < stack@.len() {
                                    assert(stack@.push(frame)[f] == stack@[f]);
                                    assert(frame_cand_ok(
                                        stack@[f]@[c],
                                        f,
                                        placed@,
                                        self.pieces@,
                                        length as int,
                                        height as int,
                                    ));
                                } else {
                                    assert(stack@.push(frame)[f] == frame);
                                    assert(frame_cand_ok(
                                        frame@[c],
                                        placed@.len() as int,
                                        placed@,
                                        self.pieces@,
                                        length as int,
                                        height as int,
                                    ));
                                }
                            }
                        }
                        let ghost stack1 = stack@;
                        stack.push(frame);
                        proof {
                            assert forall|f: int, c1: int, c2: int|
                                0 <= f < stack@.len() && 0 <= c1 < c2 < stack@[f]@.len() implies (
                            #[trigger] stack@[f]@[c1]).0 != (#[trigger] stack@[f]@[c2]).0 by {
                                if f < stack1.len() {
                                    assert(stack@[f] == stack1[f]);
                                    assert(stack1[f]@[c1].0 != stack1[f]@[c2].0);
                                } else {
                                    assert(stack@[f] == frame);
                                    assert(frame@[c1].0 != frame@[c2].0);
                                }
                            }
                            assert forall|j: int|
                                0 <= j < placed@.len() && j < stack@.len()
                                implies !crate::pool::cands_lists(
                                (#[trigger] stack@[j])@,
                                placed@[j].0,
                            ) by {
                                assert(stack@[j] == stack1[j]);
                                assert(!crate::pool::cands_lists(stack1[j]@, placed@[j].0));
                            }
                            if sols@.len() > 0 {
                                assert forall|s: int|
                                    0 <= s < sols@.len() implies sol_diverges(
                                    #[trigger] sols@[s],
                                    placed@,
                                    stack@,
                                ) by {
                                    assert(sol_diverges(sols@[s], placed@, stack1));
                                    let f = choose|f: int|
                                        0 <= f < stack1.len() && f <= placed@.len() && (forall|
                                            j: int,
                                        |
                                            0 <= j < f ==> sols@[s].pieces@[j] == (
                                            #[trigger] placed@[j]).0)
                                            && !crate::pool::cands_lists(
                                            (#[trigger] stack1[f])@,
                                            sols@[s].pieces@[f],
                                        ) && (f < placed@.len() ==> sols@[s].pieces@[f]
                                            != placed@[f].0);
                                    assert(stack@[f] == stack1[f]);
                                    assert(sol_diverges(sols@[s], placed@, stack@));
                                }
                            }
                            lemma_frames_pot_push(stack1, frame, bb, dd);
                            let e1: nat = (dd - stack1.len()) as nat;
                            let w1: int = pow(bb, e1);
                            lemma_pow_positive(bb, e1);
                            vstd::arithmetic::power::lemma_pow_adds(bb, e1, 1);
                            vstd::arithmetic::power::lemma_pow1(bb);
                            assert(pow(bb, e1 + 1) == w1 * bb) by (nonlinear_arith)
                                requires
                                    pow(bb, e1 + 1) == pow(bb, e1) * pow(bb, 1nat),
                                    pow(bb, 1nat) == bb,
                                    w1 == pow(bb, e1),
                            ;
                            assert((dd - fidx) as nat == e1 + 1);
                            lemma_frames_pot_last(stack0, bb, dd);
                            lemma_frames_pot_last(stack1, bb, dd);
                            assert(stack1.drop_last() =~= stack0.drop_last());
                            assert(stack0.len() - 1 == fidx && stack1.len() - 1 == fidx);
                            assert(stack1.last()@.len() + 1 == stack0.last()@.len());
                            let l0: int = stack0.last()@.len() as int;
                            let l1: int = stack1.last()@.len() as int;
                            let p: int = pow(bb, (dd - fidx) as nat);
                            assert(l1 * p == l0 * p - p) by (nonlinear_arith)
                                requires
                                    l1 == l0 - 1,
                            ;
                            assert(frames_pot(stack1, bb, dd) == frames_pot(stack0, bb, dd) - pow(
                                bb,
                                (dd - fidx) as nat,
                            ));
                            assert(frames_pot(stack@, bb, dd) == frames_pot(stack1, bb, dd) + (
                            frame@.len() as int) * w1);
                            let fl: int = frame@.len() as int;
                            assert(fl <= bb - 2);
                            assert(fl * w1 <= (bb - 2) * w1) by (nonlinear_arith)
                                requires
                                    fl <= bb - 2,
                                    w1 >= 1,
                            ;
                            assert((bb - 2) * w1 == bb * w1 - 2 * w1) by (nonlinear_arith);
                            assert(frames_pot(stack@, bb, dd) <= frames_pot(stack0, bb, dd) - 2
                                * w1);
                            lemma_frames_pot_nonneg(stack@, bb, dd);
                        }
                    }
                },
                None => {
                    let ghost stack1 = stack@;
                    let _ = stack.pop();
                    proof {
                        assert(stack@ =~= stack1.drop_last());
                        lemma_frames_pot_last(stack0, bb, dd);
                        lemma_frames_pot_last(stack1, bb, dd);
                        assert(stack1.drop_last() =~= stack0.drop_last());
                        assert(stack0.len() - 1 == fidx && stack1.len() - 1 == fidx);
                        assert(stack1.last()@.len() == 0);
                        assert(stack0.last()@.len() == 0);
                        lemma_frames_pot_nonneg(stack@, bb, dd);
                        assert forall|f: int|
                            0 <= f < stack@.len() implies (#[trigger] stack@[f])@.len() <= 16
                            * total by {
                            assert(stack@[f] == stack1[f]);
                        }
                    }
                    let ghost placed0 = placed@;
                    let ghost slots0 = pool.slots@;
                    proof {
                        if placed0.len() >= 1 {
                            lemma_unplace(
                                placed0,
                                slots0,
                                self.pieces@,
                                length as int,
                                height as int,
                            );
                            lemma_frames_unplace(
                                stack@,
                                placed0,
                                self.pieces@,
                                length as int,
                                height as int,
                            );
                        }
                    }
                    let back = placed.pop();
                    match back {
                        Some(pr) => {
                            let give_back = self.pieces[pr.1];
                            let ghost pre_restore = pool;
                            pool.restore(pr.1, give_back);
                            proof {
                                assert(pre_restore.piece_indexed(give_back, pr.1 as int));
                                assert forall|i: int|
                                    0 <= i < total implies pool.piece_indexed(
                                    #[trigger] self.pieces@[i],
                                    i,
                                ) by {
                                    assert(pool.class_buckets(self.pieces@[i].class)
                                        == pre_restore.class_buckets(self.pieces@[i].class));
                                    assert(pre_restore.piece_indexed(self.pieces@[i], i));
                                }
                                let kk = placed0.len() as int;
                                assert forall|f2: int|
                                    0 <= f2 < stack@.len() implies #[trigger] stack@[f2]@
                                    == stack0[f2]@ by {
                                    assert(stack@[f2] == stack1[f2]);
                                    if f2 != fidx {
                                        assert(stack1[f2] == stack0[f2]);
                                    }
                                }
                                assert forall|f: int, c1: int, c2: int|
                                    0 <= f < stack@.len() && 0 <= c1 < c2 < stack@[f]@.len()
                                    implies (#[trigger] stack@[f]@[c1]).0 != (#[trigger] stack@[
                                f]@[c2]).0 by {
                                    assert(stack@[f]@ == stack0[f]@);
                                    assert(stack0[f]@[c1].0 != stack0[f]@[c2].0);
                                }
                                assert forall|j: int|
                                    0 <= j < placed@.len() && j < stack@.len()
                                    implies !crate::pool::cands_lists(
                                    (#[trigger] stack@[j])@,
                                    placed@[j].0,
                                ) by {
                                    assert(placed@[j] == placed0[j]);
                                    assert(stack@[j]@ == stack0[j]@);
                                    assert(!crate::pool::cands_lists(stack0[j]@, placed0[j].0));
                                }
                                if stack@.len() > 0 && sols@.len() > 0 {
                                    assert forall|s: int|
                                        0 <= s < sols@.len() implies sol_diverges(
                                        #[trigger] sols@[s],
                                        placed@,
                                        stack@,
                                    ) by {
                                        assert(sol_diverges(sols@[s], placed0, stack0));
                                        let f = choose|f: int|
                                            0 <= f < stack0.len() && f <= placed0.len() && (
                                            forall|j: int|
                                                0 <= j < f ==> sols@[s].pieces@[j] == (
                                                #[trigger] placed0[j]).0)
                                                && !crate::pool::cands_lists(
                                                (#[trigger] stack0[f])@,
                                                sols@[s].pieces@[f],
                                            ) && (f < placed0.len() ==> sols@[s].pieces@[f]
                                                != placed0[f].0);
                                        if f < kk {
                                            assert(stack@[f]@ == stack0[f]@);
                                            assert forall|j: int|
                                                0 <= j < f implies sols@[s].pieces@[j] == (
                                            #[trigger] placed@[j]).0 by {
                                                assert(placed@[j] == placed0[j]);
                                            }
                                            if f < placed@.len() {
                                                assert(placed@[f] == placed0[f]);
                                            }
                                            assert(sol_diverges(sols@[s], placed@, stack@));
                                        } else {
                                            assert(f == kk);
                                            let f2 = kk - 1;
                                            assert(sols@[s].pieces@[f2] == placed0[f2].0);
                                            assert(!crate::pool::cands_lists(
                                                stack0[f2]@,
                                                placed0[f2].0,
                                            ));
                                            assert(stack@[f2]@ == stack0[f2]@);
                                            assert forall|j: int|
                                                0 <= j < f2 implies sols@[s].pieces@[j] == (
                                            #[trigger] placed@[j]).0 by {
                                                assert(placed@[j] == placed0[j]);
                                            }
                                            assert(f2 == placed@.len());
                                            assert(sol_diverges(sols@[s], placed@, stack@));
                                        }
                                    }
                                }
                            }
                        },
                        None => {},
                    }
                },
            }
        }
        Ok(sols)
    }
}

/// A sequence of distinct indices covering a value sequence of the same
/// length reads off, in some order, exactly that value sequence: looking
/// the indices up yields the same multiset of values.
proof fn lemma_index_map_multiset<A>(idx: Seq<int>, vals: Seq<A>)
    requires
        idx.no_duplicates(),
        idx.len() == vals.len(),
        forall|i: int| 0 <= i < idx.len() ==> 0 <= #[trigger] idx[i] < vals.len(),
    ensures
        idx.map_values(|j: int| vals[j]).to_multiset() == vals.to_multiset(),
    decreases vals.len(),
{
    broadcast use group_to_multiset_ensures;
    broadcast use group_multiset_axioms;

    let n = vals.len() as int;
    let mapped = idx.map_values(|j: int| vals[j]);
    if n == 0 {
        assert(mapped =~= vals);
    } else {
        assert(exists|k: int| 0 <= k < idx.len() && idx[k] == n - 1) by {
            if !(exists|k: int| 0 <= k < idx.len() && idx[k] == n - 1) {
                idx.unique_seq_to_set();
                let s = idx.to_set();
                assert(s.subset_of(set_int_range(0, n - 1))) by {
                    assert forall|x: int| s.contains(x) implies set_int_range(0, n - 1).contains(
                        x,
                    ) by {
                        let w = choose|w: int| 0 <= w < idx.len() && idx[w] == x;
                        assert(0 <= idx[w] < n);
                        assert(idx[w] != n - 1);
                    }
                }
                lemma_int_range(0, n - 1);
                lemma_len_subset(s, set_int_range(0, n - 1));
                assert(false);
            }
        }
        let k = choose|k: int| 0 <= k < idx.len() && idx[k] == n - 1;
        let idx2 = idx.remove(k);
        let vals2 = vals.drop_last();
        assert(idx2.no_duplicates()) by {
            assert forall|a: int, b: int|
                0 <= a < idx2.len() && 0 <= b < idx2.len() && a != b implies idx2[a] != idx2[b] by {
                let a0: int = if a < k {
                    a
                } else {
                    a + 1
                };
                let b0: int = if b < k {
                    b
                } else {
                    b + 1
                };
                assert(idx2[a] == idx[a0]);
                assert(idx2[b] == idx[b0]);
            }
        }
        assert forall|i: int| 0 <= i < idx2.len() implies 0 <= #[trigger] idx2[i] < vals2.len() by {
            let i0: int = if i < k {
                i
            } else {
                i + 1
            };
            assert(idx2[i] == idx[i0]);
            assert(idx[i0] < n);
            assert(i0 != k ==> idx[i0] != idx[k]);
        }
        lemma_index_map_multiset(idx2, vals2);
        let mapped2 = idx2.map_values(|j: int| vals2[j]);
        assert(mapped2 =~= mapped.remove(k)) by {
            assert forall|i: int| 0 <= i < mapped2.len() implies mapped2[i] == mapped.remove(
                k,
            )[i] by {
                let i0: int = if i < k {
                    i
                } else {
                    i + 1
                };
                assert(idx2[i] == idx[i0]);
                assert(mapped.remove(k)[i] == mapped[i0]);
                assert(mapped[i0] == vals[idx[i0]]);
                assert(mapped2[i] == vals2[idx2[i]]);
                assert(0 <= idx2[i] < n - 1);
            }
        }
        assert(mapped.remove(k).to_multiset() == mapped.to_multiset().remove(mapped[k]));
        assert(mapped[k] == vals[n - 1]);
        assert(vals2 =~= vals.remove(n - 1));
        assert(vals.remove(n - 1).to_multiset() == vals.to_multiset().remove(vals[n - 1]));
        assert(mapped.contains(mapped[k]));
        assert(mapped.to_multiset().count(mapped[k]) > 0);
        assert(vals.contains(vals[n - 1]));
        assert(vals.to_multiset().count(vals[n - 1]) > 0);
        assert(mapped.to_multiset() =~= vals.to_multiset()) by {
            assert(mapped2.to_multiset() == vals2.to_multiset());
            assert forall|y: A| true implies mapped.to_multiset().count(y) == vals.to_multiset()
                .count(y) by {
                let x = vals[n - 1];
                assert(mapped.to_multiset().remove(x).count(y) == vals.to_multiset().remove(
                    x,
                ).count(y));
            }
        }
    }
}

} // verus!
