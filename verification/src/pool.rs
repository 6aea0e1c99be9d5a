use vstd::prelude::*;
use crate::edge::Edge;
use crate::piece::Piece;
use crate::piece::PositionClass;
use crate::piece::lemma_rotation_same_edges_and_class;
use crate::piece::piece_has_edge;

verus! {

/// All slot indices stored in the bucket lists point inside a slot array
/// of length `n`.
spec fn buckets_bounded(buckets: Seq<(Edge, Vec<usize>)>, n: int) -> bool {
    forall|b: int, k: int|
        0 <= b < buckets.len() && 0 <= k < buckets[b].1@.len() ==> #[trigger] buckets[b].1@[k]
            < n
}

/// No bucket list is longer than `m`.
spec fn buckets_len_bounded(buckets: Seq<(Edge, Vec<usize>)>, m: int) -> bool {
    forall|b: int| 0 <= b < buckets.len() ==> (#[trigger] buckets[b]).1@.len() <= m
}

/// No two bucket entries carry the same key, so one linear scan for a key
/// sees everything recorded under it.
spec fn buckets_keys_distinct(buckets: Seq<(Edge, Vec<usize>)>) -> bool {
    forall|b1: int, b2: int|
        0 <= b1 < b2 < buckets.len() ==> (#[trigger] buckets[b1]).0 != (#[trigger] buckets[b2]).0
}

/// Slot index `i` is recorded under key `e` in these bucket lists.
pub open spec fn bucket_contains(buckets: Seq<(Edge, Vec<usize>)>, e: Edge, i: int) -> bool {
    exists|b: int, k: int|
        0 <= b < buckets.len() && buckets[b].0 == e && 0 <= k < buckets[b].1@.len() && (
        #[trigger] buckets[b].1@[k]) == i
}

/// The candidate `c` is sound for a slot wanting `class`, a left side of
/// `want_left` and, where one applies, a top side of `want_top`: it names
/// an occupied slot, its piece is a rotation of that slot's piece, and the
/// rotation shows the wanted class and sides.
pub open spec fn cand_ok(
    c: (Piece, usize),
    slots: Seq<Option<Piece>>,
    class: PositionClass,
    want_left: Edge,
    want_top: Option<Edge>,
) -> bool {
    &&& c.1 < slots.len()
    &&& slots[c.1 as int] matches Some(q) && c.0.is_rotation_of(q)
    &&& c.0.class == class
    &&& c.0.left == want_left
    &&& (want_top matches Some(t) ==> c.0.top == t)
}

/// The slot holds a piece of which `r` is a rotation showing the wanted
/// class, the wanted left side and, where one applies, the wanted top
/// side: `r` is an orientation the candidate search must not miss.
pub open spec fn wanted_from_slot(
    s: Option<Piece>,
    r: Piece,
    class: PositionClass,
    want_left: Edge,
    want_top: Option<Edge>,
) -> bool {
    &&& s matches Some(q) && r.is_rotation_of(q)
    &&& r.class == class
    &&& r.left == want_left
    &&& (want_top matches Some(t) ==> r.top == t)
}

/// Some listed candidate carries exactly the orientation `r`.
pub open spec fn cands_lists(cands: Seq<(Piece, usize)>, r: Piece) -> bool {
    exists|j: int| 0 <= j < cands.len() && (#[trigger] cands[j]).0 == r
}

/// The solver's index over an unplaced piece collection: a two-level
/// mapping from position class and edge value to the pieces of that class
/// showing that edge value on some side.
///
/// The pieces themselves sit in `slots`, one per input position; a slot
/// holds `None` while its piece is placed on the board. The bucket lists
/// hold slot indices and are built once: placing a piece empties its slot
/// and undoing the placement fills it again, so removal and reinsertion
/// are exact by construction, and a bucket's live membership is the set
/// of its indices whose slots are still occupied.
pub struct Pool {
    pub slots: Vec<Option<Piece>>,
    pub corner: Vec<(Edge, Vec<usize>)>,
    pub edge_cells: Vec<(Edge, Vec<usize>)>,
    pub inner: Vec<(Edge, Vec<usize>)>,
}

/// Appends `idx` to the bucket for key `e`, creating the bucket when the
/// key is new. Everything recorded before stays recorded, and `idx` is
/// recorded under `e` afterwards.
fn bucket_push(buckets: &mut Vec<(Edge, Vec<usize>)>, e: Edge, idx: usize, Ghost(n): Ghost<int>)
    requires
        buckets_bounded(old(buckets)@, n),
        buckets_keys_distinct(old(buckets)@),
        idx < n,
    ensures
        buckets_bounded(final(buckets)@, n),
        buckets_keys_distinct(final(buckets)@),
        old(buckets)@.len() <= final(buckets)@.len() <= old(buckets)@.len() + 1,
        forall|b: int|
            0 <= b < old(buckets)@.len() ==> (#[trigger] final(buckets)@[b]).1@.len() <= old(
                buckets,
            )@[b].1@.len() + 1,
        forall|b: int|
            old(buckets)@.len() <= b < final(buckets)@.len() ==> (
            #[trigger] final(buckets)@[b]).1@.len() == 1,
        bucket_contains(final(buckets)@, e, idx as int),
        forall|e2: Edge, i2: int|
            #[trigger] bucket_contains(old(buckets)@, e2, i2) ==> bucket_contains(
                final(buckets)@,
                e2,
                i2,
            ),
{
    let mut b: usize = 0;
    let blen = buckets.len();
    while b < blen
        invariant
            blen == buckets@.len(),
            b <= blen,
            buckets_bounded(buckets@, n),
            buckets_keys_distinct(buckets@),
            idx < n,
            buckets@ == old(buckets)@,
            forall|b2: int| 0 <= b2 < b ==> (#[trigger] buckets@[b2]).0 != e,
        decreases blen - b,
    {
        if buckets[b].0 == e {
            let ghost prev = buckets@;
            buckets[b].1.push(idx);
            proof {
                assert forall|b2: int|
                    0 <= b2 < prev.len() implies (#[trigger] buckets@[b2]).1@.len() <= prev[
                b2].1@.len() + 1 by {
                    if b2 != b {
                        assert(buckets@[b2] == prev[b2]);
                    }
                }
                assert forall|b2: int, k: int|
                    0 <= b2 < buckets@.len() && 0 <= k < buckets@[b2].1@.len()
                    implies #[trigger] buckets@[b2].1@[k] < n by {
                    if b2 == b {
                        assert(buckets@[b2].1@ == prev[b2].1@.push(idx));
                        if k < prev[b2].1@.len() {
                            assert(prev[b2].1@[k] < n);
                        }
                    } else {
                        assert(buckets@[b2] == prev[b2]);
                        assert(prev[b2].1@[k] < n);
                    }
                }
                assert forall|b2: int| 0 <= b2 < buckets@.len() implies (#[trigger] buckets@[
                b2]).0 == prev[b2].0 by {
                    if b2 != b {
                        assert(buckets@[b2] == prev[b2]);
                    }
                }
                assert(buckets@[b as int].1@[prev[b as int].1@.len() as int] == idx);
                assert(bucket_contains(buckets@, e, idx as int));
                assert forall|e2: Edge, i2: int|
                    #[trigger] bucket_contains(prev, e2, i2) implies bucket_contains(
                    buckets@,
                    e2,
                    i2,
                ) by {
                    let (b2, k2) = choose|b2: int, k2: int|
                        0 <= b2 < prev.len() && prev[b2].0 == e2 && 0 <= k2 < prev[b2].1@.len()
                            && prev[b2].1@[k2] == i2;
                    if b2 == b {
                        assert(buckets@[b2].1@[k2] == i2);
                    } else {
                        assert(buckets@[b2] == prev[b2]);
                        assert(buckets@[b2].1@[k2] == i2);
                    }
                }
            }
            return;
        }
        b = b + 1;
    }
    let ghost prev = buckets@;
    let mut fresh: Vec<usize> = Vec::new();
    fresh.push(idx);
    buckets.push((e, fresh));
    proof {
        assert forall|b2: int, k: int|
            0 <= b2 < buckets@.len() && 0 <= k < buckets@[b2].1@.len()
            implies #[trigger] buckets@[b2].1@[k] < n by {
            if b2 < prev.len() {
                assert(buckets@[b2] == prev[b2]);
                assert(prev[b2].1@[k] < n);
            } else {
                assert(buckets@[b2].1@[k] == idx);
            }
        }
        assert forall|b1: int, b2: int|
            0 <= b1 < b2 < buckets@.len() implies (#[trigger] buckets@[b1]).0 != (
        #[trigger] buckets@[b2]).0 by {
            if b2 < prev.len() {
                assert(buckets@[b1] == prev[b1]);
                assert(buckets@[b2] == prev[b2]);
            } else {
                assert(buckets@[b1] == prev[b1]);
                assert(buckets@[b2].0 == e);
                assert(prev[b1].0 != e);
            }
        }
        assert(buckets@[prev.len() as int].0 == e);
        assert(buckets@[prev.len() as int].1@[0] == idx);
        assert(bucket_contains(buckets@, e, idx as int));
        assert forall|e2: Edge, i2: int|
            #[trigger] bucket_contains(prev, e2, i2) implies bucket_contains(buckets@, e2, i2) by {
            let (b2, k2) = choose|b2: int, k2: int|
                0 <= b2 < prev.len() && prev[b2].0 == e2 && 0 <= k2 < prev[b2].1@.len()
                    && prev[b2].1@[k2] == i2;
            assert(buckets@[b2] == prev[b2]);
            assert(buckets@[b2].1@[k2] == i2);
        }
    }
}

/// A bucket list either unchanged or grown as one `bucket_push` grows it
/// stays within a bound one higher.
proof fn lemma_len_bound_after_push(
    before: Seq<(Edge, Vec<usize>)>,
    after: Seq<(Edge, Vec<usize>)>,
    m: int,
)
    requires
        m >= 0,
        buckets_len_bounded(before, m),
        before.len() <= after.len() <= before.len() + 1,
        forall|b: int|
            0 <= b < before.len() ==> (#[trigger] after[b]).1@.len() <= before[b].1@.len() + 1,
        forall|b: int| before.len() <= b < after.len() ==> (#[trigger] after[b]).1@.len() == 1,
    ensures
        buckets_len_bounded(after, m + 1),
{
    assert forall|b: int| 0 <= b < after.len() implies (#[trigger] after[b]).1@.len() <= m + 1 by {
        if b < before.len() {
            assert(before[b].1@.len() <= m);
        }
    }
}

/// A candidate value stays listed when the list only grows at the end.
proof fn lemma_lists_extend(a: Seq<(Piece, usize)>, b: Seq<(Piece, usize)>, r: Piece)
    requires
        cands_lists(a, r),
        a.len() <= b.len(),
        forall|j: int| 0 <= j < a.len() ==> #[trigger] b[j] == a[j],
    ensures
        cands_lists(b, r),
{
    let j = choose|j: int| 0 <= j < a.len() && (#[trigger] a[j]).0 == r;
    assert(b[j].0 == r);
}

/// A bound on bucket lengths keeps holding when it is raised.
proof fn lemma_len_bound_monotone(buckets: Seq<(Edge, Vec<usize>)>, m1: int, m2: int)
    requires
        buckets_len_bounded(buckets, m1),
        m1 <= m2,
    ensures
        buckets_len_bounded(buckets, m2),
{
}

impl Pool {
    /// The bucket lists serving position class `c`.
    pub open spec fn class_buckets(self, c: PositionClass) -> Seq<(Edge, Vec<usize>)> {
        match c {
            PositionClass::Corner => self.corner@,
            PositionClass::EdgeCell => self.edge_cells@,
            PositionClass::Inner => self.inner@,
        }
    }

    /// Slot index `i` is recorded under class `c` and key `e`.
    pub open spec fn indexed(self, c: PositionClass, e: Edge, i: int) -> bool {
        bucket_contains(self.class_buckets(c), e, i)
    }

    /// Slot index `i` is recorded, under the piece's class, for each of
    /// the piece's side values.
    pub open spec fn piece_indexed(self, p: Piece, i: int) -> bool {
        &&& self.indexed(p.class, p.top, i)
        &&& self.indexed(p.class, p.right, i)
        &&& self.indexed(p.class, p.bottom, i)
        &&& self.indexed(p.class, p.left, i)
    }

    /// Every occupied slot's piece is recorded in the index under its
    /// class and each of its side values: the ground on which the
    /// candidate search promises to miss nothing.
    pub open spec fn coherent(self) -> bool {
        forall|i: int|
            0 <= i < self.slots@.len() ==> ((#[trigger] self.slots@[i]) matches Some(q)
                ==> self.piece_indexed(q, i))
    }

    /// The index structure is sound: indices point inside the slot array,
    /// no bucket is longer than four entries per piece, and keys are
    /// unique per class.
    pub closed spec fn wf(self) -> bool {
        &&& self.index_wf(4 * self.slots@.len() as int)
    }

    /// As `wf`, with the bucket-length bound a parameter, so the build can
    /// grow it piece by piece.
    spec fn index_wf(self, m: int) -> bool {
        &&& buckets_bounded(self.corner@, self.slots@.len() as int)
        &&& buckets_bounded(self.edge_cells@, self.slots@.len() as int)
        &&& buckets_bounded(self.inner@, self.slots@.len() as int)
        &&& buckets_len_bounded(self.corner@, m)
        &&& buckets_len_bounded(self.edge_cells@, m)
        &&& buckets_len_bounded(self.inner@, m)
        &&& buckets_keys_distinct(self.corner@)
        &&& buckets_keys_distinct(self.edge_cells@)
        &&& buckets_keys_distinct(self.inner@)
    }

    /// Records slot `idx` under class `c` and key `e`, keeping every
    /// earlier record.
    fn index_edge(&mut self, c: PositionClass, e: Edge, idx: usize, Ghost(m): Ghost<int>)
        requires
            m >= 0,
            idx < old(self).slots@.len(),
            old(self).index_wf(m),
        ensures
            final(self).slots == old(self).slots,
            final(self).index_wf(m + 1),
            final(self).indexed(c, e, idx as int),
            forall|c2: PositionClass, e2: Edge, i2: int|
                old(self).indexed(c2, e2, i2) ==> #[trigger] final(self).indexed(c2, e2, i2),
    {
        let ghost n = self.slots@.len() as int;
        let ghost before = *self;
        match c {
            PositionClass::Corner => bucket_push(&mut self.corner, e, idx, Ghost(n)),
            PositionClass::EdgeCell => bucket_push(&mut self.edge_cells, e, idx, Ghost(n)),
            PositionClass::Inner => bucket_push(&mut self.inner, e, idx, Ghost(n)),
        }
        proof {
            lemma_len_bound_after_push(before.corner@, self.corner@, m);
            lemma_len_bound_after_push(before.edge_cells@, self.edge_cells@, m);
            lemma_len_bound_after_push(before.inner@, self.inner@, m);
            assert forall|c2: PositionClass, e2: Edge, i2: int|
                before.indexed(c2, e2, i2) implies #[trigger] self.indexed(c2, e2, i2) by {
                if c2 == c {
                    assert(bucket_contains(before.class_buckets(c), e2, i2));
                } else {
                    assert(self.class_buckets(c2) == before.class_buckets(c2));
                }
            }
        }
    }

    /// Builds the index from a piece collection: every slot starts
    /// occupied, and every piece is recorded, under its class, once for
    /// each distinct edge value among its four sides — so the finished
    /// pool is coherent: nothing a later candidate lookup must see is
    /// missing from the index.
    pub fn new(pieces: &Vec<Piece>) -> (r: Pool)
        ensures
            r.wf(),
            r.slots@.len() == pieces@.len(),
            forall|i: int| 0 <= i < pieces@.len() ==> r.slots@[i] == Some(#[trigger] pieces@[i]),
            forall|i: int|
                0 <= i < pieces@.len() ==> r.piece_indexed(#[trigger] pieces@[i], i),
            r.coherent(),
    {
        let n = pieces.len();
        let mut slots: Vec<Option<Piece>> = Vec::new();
        let mut i: usize = 0;
        while i < n
            invariant
                i <= n,
                n == pieces@.len(),
                slots@.len() == i,
                forall|j: int| 0 <= j < i ==> slots@[j] == Some(#[trigger] pieces@[j]),
            decreases n - i,
        {
            slots.push(Some(pieces[i]));
            i = i + 1;
        }
        let mut pool = Pool { slots, corner: Vec::new(), edge_cells: Vec::new(), inner: Vec::new() };
        let mut i: usize = 0;
        while i < n
            invariant
                i <= n,
                n == pieces@.len(),
                pool.slots@.len() == n,
                pool.index_wf(4 * i),
                forall|j: int| 0 <= j < n ==> pool.slots@[j] == Some(#[trigger] pieces@[j]),
                forall|j: int| 0 <= j < i ==> pool.piece_indexed(#[trigger] pieces@[j], j),
            decreases n - i,
        {
            let p = pieces[i];
            let mut edges: Vec<Edge> = Vec::new();
            edges.push(p.top);
            if p.right != p.top {
                edges.push(p.right);
            }
            if p.bottom != p.top && p.bottom != p.right {
                edges.push(p.bottom);
            }
            if p.left != p.top && p.left != p.right && p.left != p.bottom {
                edges.push(p.left);
            }
            proof {
                assert(edges@[0] == p.top);
                assert(exists|k2: int| 0 <= k2 < edges@.len() && edges@[k2] == p.top);
                assert(exists|k2: int| 0 <= k2 < edges@.len() && edges@[k2] == p.right) by {
                    if p.right != p.top {
                        assert(edges@[1] == p.right);
                    } else {
                        assert(edges@[0] == p.right);
                    }
                }
                assert(exists|k2: int| 0 <= k2 < edges@.len() && edges@[k2] == p.bottom) by {
                    if p.bottom == p.top {
                        assert(edges@[0] == p.bottom);
                    } else if p.bottom == p.right {
                        if p.right != p.top {
                            assert(edges@[1] == p.bottom);
                        } else {
                            assert(edges@[0] == p.bottom);
                        }
                    } else {
                        if p.right != p.top {
                            assert(edges@[2] == p.bottom);
                        } else {
                            assert(edges@[1] == p.bottom);
                        }
                    }
                }
                assert(exists|k2: int| 0 <= k2 < edges@.len() && edges@[k2] == p.left) by {
                    if p.left == p.top {
                        assert(edges@[0] == p.left);
                    } else if p.left == p.right {
                        if p.right != p.top {
                            assert(edges@[1] == p.left);
                        } else {
                            assert(edges@[0] == p.left);
                        }
                    } else if p.left == p.bottom {
                        if p.bottom == p.top {
                            assert(edges@[0] == p.left);
                        } else if p.bottom == p.right {
                            if p.right != p.top {
                                assert(edges@[1] == p.left);
                            } else {
                                assert(edges@[0] == p.left);
                            }
                        } else {
                            if p.right != p.top {
                                assert(edges@[2] == p.left);
                            } else {
                                assert(edges@[1] == p.left);
                            }
                        }
                    } else {
                        let off: int = 1 + (if p.right != p.top { 1int } else { 0int }) + (
                        if p.bottom != p.top && p.bottom != p.right { 1int } else { 0int });
                        assert(edges@[off] == p.left);
                    }
                }
            }
            let elen = edges.len();
            let mut k: usize = 0;
            while k < elen
                invariant
                    k <= elen,
                    elen == edges@.len(),
                    elen <= 4,
                    i < n,
                    n == pieces@.len(),
                    pool.slots@.len() == n,
                    pool.index_wf(4 * i + k),
                    forall|j: int| 0 <= j < n ==> pool.slots@[j] == Some(#[trigger] pieces@[j]),
                    forall|j: int| 0 <= j < i ==> pool.piece_indexed(#[trigger] pieces@[j], j),
                    forall|k2: int|
                        0 <= k2 < k ==> pool.indexed(p.class, #[trigger] edges@[k2], i as int),
                decreases elen - k,
            {
                let e = edges[k];
                let ghost before = pool;
                pool.index_edge(p.class, e, i, Ghost(4 * i as int + k as int));
                proof {
                    assert forall|j: int|
                        0 <= j < i implies pool.piece_indexed(#[trigger] pieces@[j], j) by {
                        assert(before.piece_indexed(pieces@[j], j));
                        assert(pool.indexed(pieces@[j].class, pieces@[j].top, j));
                        assert(pool.indexed(pieces@[j].class, pieces@[j].right, j));
                        assert(pool.indexed(pieces@[j].class, pieces@[j].bottom, j));
                        assert(pool.indexed(pieces@[j].class, pieces@[j].left, j));
                    }
                    assert forall|k2: int|
                        0 <= k2 < k + 1 implies pool.indexed(
                        p.class,
                        #[trigger] edges@[k2],
                        i as int,
                    ) by {
                        if k2 < k {
                            assert(before.indexed(p.class, edges@[k2], i as int));
                        }
                    }
                }
                k = k + 1;
            }
            proof {
                assert(pool.piece_indexed(p, i as int)) by {
                    let kt = choose|k2: int| 0 <= k2 < edges@.len() && edges@[k2] == p.top;
                    assert(pool.indexed(p.class, edges@[kt], i as int));
                    let kr = choose|k2: int| 0 <= k2 < edges@.len() && edges@[k2] == p.right;
                    assert(pool.indexed(p.class, edges@[kr], i as int));
                    let kb = choose|k2: int| 0 <= k2 < edges@.len() && edges@[k2] == p.bottom;
                    assert(pool.indexed(p.class, edges@[kb], i as int));
                    let kl = choose|k2: int| 0 <= k2 < edges@.len() && edges@[k2] == p.left;
                    assert(pool.indexed(p.class, edges@[kl], i as int));
                }
                lemma_len_bound_monotone(pool.corner@, 4 * i + elen, 4 * (i + 1));
                lemma_len_bound_monotone(pool.edge_cells@, 4 * i + elen, 4 * (i + 1));
                lemma_len_bound_monotone(pool.inner@, 4 * i + elen, 4 * (i + 1));
            }
            i = i + 1;
        }
        proof {
            lemma_len_bound_monotone(pool.corner@, 4 * n as int, 4 * pool.slots@.len() as int);
            lemma_len_bound_monotone(pool.edge_cells@, 4 * n as int, 4 * pool.slots@.len() as int);
            lemma_len_bound_monotone(pool.inner@, 4 * n as int, 4 * pool.slots@.len() as int);
            assert forall|i2: int|
                0 <= i2 < pool.slots@.len() implies ((#[trigger] pool.slots@[i2]) matches Some(q)
                ==> pool.piece_indexed(q, i2)) by {
                assert(pool.slots@[i2] == Some(pieces@[i2]));
                assert(pool.piece_indexed(pieces@[i2], i2));
            }
        }
        pool
    }

    /// Takes the piece in slot `idx` off the pool. The bucket lists are
    /// untouched; the slot becomes empty, which retires the index from
    /// every bucket that holds it.
    pub fn remove(&mut self, idx: usize)
        requires
            old(self).wf(),
            idx < old(self).slots@.len(),
        ensures
            final(self).wf(),
            final(self).slots@ == old(self).slots@.update(idx as int, None::<Piece>),
            final(self).corner == old(self).corner,
            final(self).edge_cells == old(self).edge_cells,
            final(self).inner == old(self).inner,
            old(self).coherent() ==> final(self).coherent(),
    {
        let ghost before = *self;
        self.slots[idx] = None;
        proof {
            if before.coherent() {
                assert forall|i: int|
                    0 <= i < self.slots@.len() implies ((#[trigger] self.slots@[i]) matches Some(q)
                    ==> self.piece_indexed(q, i)) by {
                    if i != idx {
                        assert(self.slots@[i] == before.slots@[i]);
                    }
                }
            }
        }
    }

    /// Puts a piece back into slot `idx`, undoing a removal. Restoring the
    /// piece that was removed from `idx` re-establishes exactly the bucket
    /// membership the removal retired.
    pub fn restore(&mut self, idx: usize, p: Piece)
        requires
            old(self).wf(),
            idx < old(self).slots@.len(),
        ensures
            final(self).wf(),
            final(self).slots@ == old(self).slots@.update(idx as int, Some(p)),
            final(self).corner == old(self).corner,
            final(self).edge_cells == old(self).edge_cells,
            final(self).inner == old(self).inner,
            old(self).coherent() && old(self).piece_indexed(p, idx as int)
                ==> final(self).coherent(),
    {
        let ghost before = *self;
        self.slots[idx] = Some(p);
        proof {
            if before.coherent() && before.piece_indexed(p, idx as int) {
                assert forall|i: int|
                    0 <= i < self.slots@.len() implies ((#[trigger] self.slots@[i]) matches Some(q)
                    ==> self.piece_indexed(q, i)) by {
                    if i != idx {
                        assert(self.slots@[i] == before.slots@[i]);
                    }
                }
            }
        }
    }

    /// Collects the candidate orientations for a slot wanting position
    /// class `class`, left side `want_left` and, where one applies, top
    /// side `want_top`. The list is sound — every entry is a fitting
    /// rotation of a still-pooled piece — and complete: every fitting
    /// rotation of every still-pooled piece appears, without repeating an
    /// orientation. An empty result is therefore a proven dead end, never
    /// an error.
    pub fn candidates(&self, class: PositionClass, want_left: Edge, want_top: Option<Edge>) -> (cands: Vec<(Piece, usize)>)
        requires
            self.wf(),
            self.coherent(),
        ensures
            forall|j: int|
                0 <= j < cands@.len() ==> cand_ok(
                    #[trigger] cands@[j],
                    self.slots@,
                    class,
                    want_left,
                    want_top,
                ),
            forall|i: int, r: Piece|
                0 <= i < self.slots@.len() && #[trigger] wanted_from_slot(
                    self.slots@[i],
                    r,
                    class,
                    want_left,
                    want_top,
                ) ==> cands_lists(cands@, r),
            forall|j1: int, j2: int|
                0 <= j1 < j2 < cands@.len() ==> (#[trigger] cands@[j1]).0 != (
                #[trigger] cands@[j2]).0,
            cands@.len() <= 16 * self.slots@.len(),
    {
        let mut cands: Vec<(Piece, usize)> = Vec::new();
        let buckets = match class {
            PositionClass::Corner => &self.corner,
            PositionClass::EdgeCell => &self.edge_cells,
            PositionClass::Inner => &self.inner,
        };
        let blen = buckets.len();
        let mut b: usize = 0;
        let mut found: Option<usize> = None;
        while b < blen
            invariant
                b <= blen,
                blen == buckets@.len(),
                match found {
                    Some(f) => f < blen && buckets@[f as int].0 == want_left,
                    None => forall|b2: int| 0 <= b2 < b ==> (#[trigger] buckets@[b2]).0
                        != want_left,
                },
            decreases blen - b,
        {
            if found.is_none() && buckets[b].0 == want_left {
                found = Some(b);
            }
            b = b + 1;
        }
        let fidx = match found {
            Some(f) => f,
            None => {
                proof {
                    assert forall|i: int, r: Piece|
                        0 <= i < self.slots@.len() && #[trigger] wanted_from_slot(
                            self.slots@[i],
                            r,
                            class,
                            want_left,
                            want_top,
                        ) implies cands_lists(cands@, r) by {
                        let q = choose|q: Piece| self.slots@[i] == Some(q);
                        lemma_rotation_same_edges_and_class(r, q, want_left);
                        assert(piece_has_edge(q, want_left));
                        assert(self.piece_indexed(q, i));
                        assert(bucket_contains(self.class_buckets(class), want_left, i));
                        let (b2, k2) = choose|b2: int, k2: int|
                            0 <= b2 < buckets@.len() && buckets@[b2].0 == want_left && 0 <= k2
                                < buckets@[b2].1@.len() && buckets@[b2].1@[k2] == i;
                        assert(false);
                    }
                }
                return cands;
            },
        };
        let bucket = &buckets[fidx].1;
        let klen = bucket.len();
        proof {
            assert(klen <= 4 * self.slots@.len());
        }
        let mut k: usize = 0;
        while k < klen
            invariant
                k <= klen,
                klen == bucket@.len(),
                klen <= 4 * self.slots@.len(),
                cands@.len() <= 4 * k,
                self.wf(),
                bucket@ == self.class_buckets(class)[fidx as int].1@,
                forall|k2: int| 0 <= k2 < klen ==> #[trigger] bucket@[k2] < self.slots@.len(),
                forall|j: int|
                    0 <= j < cands@.len() ==> cand_ok(
                        #[trigger] cands@[j],
                        self.slots@,
                        class,
                        want_left,
                        want_top,
                    ),
                forall|j1: int, j2: int|
                    0 <= j1 < j2 < cands@.len() ==> (#[trigger] cands@[j1]).0 != (
                    #[trigger] cands@[j2]).0,
                forall|k2: int, r: Piece|
                    0 <= k2 < k && #[trigger] wanted_from_slot(
                        self.slots@[bucket@[k2] as int],
                        r,
                        class,
                        want_left,
                        want_top,
                    ) ==> cands_lists(cands@, r),
            decreases klen - k,
        {
            let idx = bucket[k];
            let ghost cands_at_k = cands@;
            if let Some(q) = self.slots[idx] {
                let r0 = q;
                let r1 = r0.rotate();
                let r2 = r1.rotate();
                let r3 = r2.rotate();
                proof {
                    assert(q.spec_rotate_n(0) == q);
                    assert(q.spec_rotate_n(1) == q.spec_rotate_n(0).spec_rotate());
                    assert(q.spec_rotate_n(2) == q.spec_rotate_n(1).spec_rotate());
                    assert(q.spec_rotate_n(3) == q.spec_rotate_n(2).spec_rotate());
                    assert(r0.is_rotation_of(q));
                    assert(r1.is_rotation_of(q));
                    assert(r2.is_rotation_of(q));
                    assert(r3.is_rotation_of(q));
                }
                push_candidate(&mut cands, r0, idx, Ghost(self.slots@), class, want_left, want_top);
                let ghost c1 = cands@;
                push_candidate(&mut cands, r1, idx, Ghost(self.slots@), class, want_left, want_top);
                let ghost c2 = cands@;
                push_candidate(&mut cands, r2, idx, Ghost(self.slots@), class, want_left, want_top);
                let ghost c3 = cands@;
                push_candidate(&mut cands, r3, idx, Ghost(self.slots@), class, want_left, want_top);
                proof {
                    assert forall|r: Piece|
                        #[trigger] wanted_from_slot(
                            self.slots@[idx as int],
                            r,
                            class,
                            want_left,
                            want_top,
                        ) implies cands_lists(cands@, r) by {
                        let m = choose|m: nat| m < 4 && r == q.spec_rotate_n(m);
                        assert(m == 0 || m == 1 || m == 2 || m == 3);
                        assert(r == r0 || r == r1 || r == r2 || r == r3);
                        if r == r0 {
                            assert(cands_lists(c1, r));
                            lemma_lists_extend(c1, c2, r);
                            lemma_lists_extend(c2, c3, r);
                            lemma_lists_extend(c3, cands@, r);
                        } else if r == r1 {
                            assert(cands_lists(c2, r));
                            lemma_lists_extend(c2, c3, r);
                            lemma_lists_extend(c3, cands@, r);
                        } else if r == r2 {
                            assert(cands_lists(c3, r));
                            lemma_lists_extend(c3, cands@, r);
                        } else {
                            assert(cands_lists(cands@, r));
                        }
                    }
                }
            }
            proof {
                assert forall|k2: int, r: Piece|
                    0 <= k2 < k + 1 && #[trigger] wanted_from_slot(
                        self.slots@[bucket@[k2] as int],
                        r,
                        class,
                        want_left,
                        want_top,
                    ) implies cands_lists(cands@, r) by {
                    if k2 < k {
                        assert(cands_lists(cands_at_k, r));
                        lemma_lists_extend(cands_at_k, cands@, r);
                    }
                }
            }
            k = k + 1;
        }
        proof {
            assert forall|i: int, r: Piece|
                0 <= i < self.slots@.len() && #[trigger] wanted_from_slot(
                    self.slots@[i],
                    r,
                    class,
                    want_left,
                    want_top,
                ) implies cands_lists(cands@, r) by {
                let q = choose|q: Piece| self.slots@[i] == Some(q);
                lemma_rotation_same_edges_and_class(r, q, want_left);
                assert(piece_has_edge(q, want_left));
                assert(self.piece_indexed(q, i));
                assert(bucket_contains(self.class_buckets(class), want_left, i));
                let (b2, k2) = choose|b2: int, k2: int|
                    0 <= b2 < buckets@.len() && buckets@[b2].0 == want_left && 0 <= k2 < buckets@[
                    b2].1@.len() && buckets@[b2].1@[k2] == i;
                assert(b2 == fidx);
                assert(bucket@[k2] == i);
            }
        }
        cands
    }
}

/// Appends the orientation `(r, idx)` to the candidate list when it shows
/// the wanted class and sides and the same orientation is not there yet.
/// Earlier entries stay put, and afterwards the list holds the value `r`
/// whenever `r` shows the wanted class and sides.
fn push_candidate(
    cands: &mut Vec<(Piece, usize)>,
    r: Piece,
    idx: usize,
    Ghost(slots): Ghost<Seq<Option<Piece>>>,
    class: PositionClass,
    want_left: Edge,
    want_top: Option<Edge>,
)
    requires
        idx < slots.len(),
        slots[idx as int] matches Some(q) && r.is_rotation_of(q),
        forall|j: int|
            0 <= j < old(cands)@.len() ==> cand_ok(
                #[trigger] old(cands)@[j],
                slots,
                class,
                want_left,
                want_top,
            ),
    ensures
        forall|j: int|
            0 <= j < final(cands)@.len() ==> cand_ok(
                #[trigger] final(cands)@[j],
                slots,
                class,
                want_left,
                want_top,
            ),
        old(cands)@.len() <= final(cands)@.len() <= old(cands)@.len() + 1,
        forall|j: int| 0 <= j < old(cands)@.len() ==> #[trigger] final(cands)@[j] == old(
            cands,
        )@[j],
        (r.class == class && r.left == want_left && (want_top matches Some(t) ==> r.top == t))
            ==> cands_lists(final(cands)@, r),
        (forall|j1: int, j2: int|
            0 <= j1 < j2 < old(cands)@.len() ==> (#[trigger] old(cands)@[j1]).0 != (
            #[trigger] old(cands)@[j2]).0) ==> (forall|j1: int, j2: int|
            0 <= j1 < j2 < final(cands)@.len() ==> (#[trigger] final(cands)@[j1]).0 != (
            #[trigger] final(cands)@[j2]).0),
{
    if r.class != class {
        return;
    }
    if r.left != want_left {
        return;
    }
    match want_top {
        Some(t) => {
            if r.top != t {
                return;
            }
        },
        None => {},
    }
    let clen = cands.len();
    let mut j: usize = 0;
    while j < clen
        invariant
            j <= clen,
            clen == cands@.len(),
            cands@ == old(cands)@,
            forall|j2: int| 0 <= j2 < j ==> (#[trigger] cands@[j2]).0 != r,
            forall|j2: int|
                0 <= j2 < cands@.len() ==> cand_ok(
                    #[trigger] cands@[j2],
                    slots,
                    class,
                    want_left,
                    want_top,
                ),
        decreases clen - j,
    {
        if cands[j].0 == r {
            proof {
                assert(cands_lists(cands@, r));
            }
            return;
        }
        j = j + 1;
    }
    cands.push((r, idx));
    proof {
        assert(cands@[clen as int].0 == r);
        assert(cands_lists(cands@, r));
        if forall|j1: int, j2: int|
            0 <= j1 < j2 < old(cands)@.len() ==> (#[trigger] old(cands)@[j1]).0 != (
            #[trigger] old(cands)@[j2]).0 {
            assert forall|j1: int, j2: int|
                0 <= j1 < j2 < cands@.len() implies (#[trigger] cands@[j1]).0 != (
            #[trigger] cands@[j2]).0 by {
                if j2 == clen {
                    assert(cands@[j1].0 != r);
                } else {
                    assert(old(cands)@[j1].0 != old(cands)@[j2].0);
                }
            }
        }
    }
}

} // verus!
