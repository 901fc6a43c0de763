use vstd::prelude::*;
use crate::coordinates::cell_step;
use crate::direction::Direction;

verus! {

/// Whether two cells of the integer grid are cardinal neighbors, that is,
/// lie at Manhattan distance one from each other.
pub open spec fn cardinal_neighbors(a: (int, int), b: (int, int)) -> bool {
    (a.0 == b.0 && (a.1 == b.1 + 1 || a.1 + 1 == b.1)) || (a.1 == b.1 && (a.0 == b.0 + 1 || a.0
        + 1 == b.0))
}

/// Whether `p` walks along edges of `es`: a nonempty cell sequence whose
/// consecutive elements are all connected by an edge.
pub open spec fn is_path(es: Set<((int, int), (int, int))>, p: Seq<(int, int)>) -> bool {
    p.len() >= 1 && forall|i: int| 0 <= i < p.len() - 1 ==> es.contains((#[trigger] p[i], p[i + 1]))
}

/// Whether some path along edges of `es` leads from `a` to `b`.
#[verifier::opaque]
pub open spec fn connected(es: Set<((int, int), (int, int))>, a: (int, int), b: (int, int)) -> bool {
    exists|p: Seq<(int, int)>| is_path(es, p) && p.first() == a && p.last() == b
}

/// Every cell is connected to itself.
pub proof fn lemma_connected_refl(es: Set<((int, int), (int, int))>, a: (int, int))
    ensures
        connected(es, a, a),
{
    reveal(connected);
    let p = seq![a];
    assert(is_path(es, p) && p.first() == a && p.last() == a);
}

/// A connection extends along one more edge.
pub proof fn lemma_connected_step(
    es: Set<((int, int), (int, int))>,
    a: (int, int),
    b: (int, int),
    c: (int, int),
)
    requires
        connected(es, a, b),
        es.contains((b, c)),
    ensures
        connected(es, a, c),
{
    reveal(connected);
    let p = choose|p: Seq<(int, int)>| is_path(es, p) && p.first() == a && p.last() == b;
    let q = p.push(c);
    assert forall|i: int| 0 <= i < q.len() - 1 implies es.contains((#[trigger] q[i], q[i + 1])) by {
        if i < p.len() - 1 {
            assert(es.contains((p[i], p[i + 1])));
        }
    }
    assert(is_path(es, q));
    assert(q.first() == a && q.last() == c);
}

/// Connections survive the growth of the edge set.
pub proof fn lemma_connected_mono(
    es1: Set<((int, int), (int, int))>,
    es2: Set<((int, int), (int, int))>,
    a: (int, int),
    b: (int, int),
)
    requires
        connected(es1, a, b),
        es1.subset_of(es2),
    ensures
        connected(es2, a, b),
{
    reveal(connected);
    let p = choose|p: Seq<(int, int)>| is_path(es1, p) && p.first() == a && p.last() == b;
    assert(is_path(es2, p));
}

/// Over a symmetric edge set, connections run both ways: the reversed path
/// walks the swapped edges.
#[verifier::rlimit(100)]
pub proof fn lemma_connected_sym(
    es: Set<((int, int), (int, int))>,
    a: (int, int),
    b: (int, int),
)
    requires
        connected(es, a, b),
        forall|x: (int, int), y: (int, int)| #[trigger] es.contains((x, y)) ==> es.contains((y, x)),
    ensures
        connected(es, b, a),
{
    reveal(connected);
    let p = choose|p: Seq<(int, int)>| is_path(es, p) && p.first() == a && p.last() == b;
    let q = p.reverse();
    assert forall|i: int| 0 <= i < q.len() - 1 implies es.contains((#[trigger] q[i], q[i + 1])) by {
        let j = p.len() - 1 - i;
        assert(es.contains((p[j - 1], p[j])));
        assert(q[i] == p[j] && q[i + 1] == p[j - 1]);
    }
    assert(is_path(es, q));
    assert(q.first() == b && q.last() == a);
}

/// Two connections chain into one: the two paths meeting at `b` concatenate.
#[verifier::rlimit(100)]
pub proof fn lemma_connected_trans(
    es: Set<((int, int), (int, int))>,
    a: (int, int),
    b: (int, int),
    c: (int, int),
)
    requires
        connected(es, a, b),
        connected(es, b, c),
    ensures
        connected(es, a, c),
{
    reveal(connected);
    let p = choose|p: Seq<(int, int)>| is_path(es, p) && p.first() == a && p.last() == b;
    let q = choose|q: Seq<(int, int)>| is_path(es, q) && q.first() == b && q.last() == c;
    let r = p + q.drop_first();
    if q.len() == 1 {
        assert(r =~= p);
    } else {
        assert forall|i: int| 0 <= i < r.len() - 1 implies es.contains(
            (#[trigger] r[i], r[i + 1]),
        ) by {
            if i < p.len() - 1 {
                assert(es.contains((p[i], p[i + 1])));
            } else if i == p.len() - 1 {
                assert(r[i] == b && r[i + 1] == q[1]);
                assert(es.contains((q[0], q[1])));
            } else {
                let j = i - p.len() + 1;
                assert(es.contains((q[j], q[j + 1])));
                assert(r[i] == q[j] && r[i + 1] == q[j + 1]);
            }
        }
        assert(is_path(es, r));
        assert(r.first() == a && r.last() == c);
    }
}

/// Every cardinal neighbor is reached by a step in one of the four
/// directions.
pub proof fn lemma_neighbor_is_step(a: (int, int), b: (int, int))
    requires
        cardinal_neighbors(a, b),
    ensures
        exists|d: Direction| cell_step(a, d) == b,
{
    if b.1 == a.1 - 1 {
        assert(cell_step(a, Direction::North) == b);
    } else if b.0 == a.0 + 1 {
        assert(cell_step(a, Direction::East) == b);
    } else if b.1 == a.1 + 1 {
        assert(cell_step(a, Direction::South) == b);
    } else {
        assert(cell_step(a, Direction::West) == b);
    }
}

/// A cell connected to a different cell has some edge leaving it.
pub proof fn lemma_connected_has_edge(
    es: Set<((int, int), (int, int))>,
    a: (int, int),
    b: (int, int),
)
    requires
        connected(es, a, b),
        a != b,
    ensures
        exists|x: (int, int)| es.contains((a, x)),
{
    reveal(connected);
    let p = choose|p: Seq<(int, int)>| is_path(es, p) && p.first() == a && p.last() == b;
    assert(p.len() >= 2);
    assert(es.contains((p[0], p[1])));
}

/// A cell connected from a different cell has some edge entering it.
pub proof fn lemma_connected_edge_into(
    es: Set<((int, int), (int, int))>,
    a: (int, int),
    b: (int, int),
)
    requires
        connected(es, a, b),
        a != b,
    ensures
        exists|x: (int, int)| es.contains((x, b)),
{
    reveal(connected);
    let p = choose|p: Seq<(int, int)>| is_path(es, p) && p.first() == a && p.last() == b;
    assert(p.len() >= 2);
    assert(es.contains((p[p.len() - 2], p[p.len() - 1])));
}

/// A grid of at least two cells whose cells are all connected to the origin
/// has some edge leaving the origin.
pub proof fn lemma_spanning_origin_edge(es: Set<((int, int), (int, int))>, w: int, h: int)
    requires
        1 <= w,
        1 <= h,
        w * h >= 2,
        forall|c: (int, int)| grid_cells(w, h).contains(c) ==> connected(es, (0int, 0int), c),
    ensures
        exists|x: (int, int)| es.contains((((0int, 0int), x))),
{
    let c: (int, int) = if w >= 2 {
        (1, 0)
    } else {
        (0, 1)
    };
    if w < 2 {
        assert(h >= 2) by (nonlinear_arith)
            requires
                1 <= w < 2,
                1 <= h,
                w * h >= 2,
        ;
    }
    assert(grid_cells(w, h).contains(c));
    assert(connected(es, (0int, 0int), c));
    lemma_connected_has_edge(es, (0int, 0int), c);
}

/// All cells of the `w` by `h` grid.
pub open spec fn grid_cells(w: int, h: int) -> Set<(int, int)> {
    Set::new(|c: (int, int)| 0 <= c.0 < w && 0 <= c.1 < h)
}

/// The cells of row `y` of a grid of width `w`.
pub open spec fn row_cells(w: int, y: int) -> Set<(int, int)> {
    Set::new(|c: (int, int)| 0 <= c.0 < w && c.1 == y)
}

/// A row of width `w` holds `w` cells.
pub proof fn lemma_row_cells_len(w: int, y: int)
    requires
        0 <= w,
    ensures
        row_cells(w, y).finite(),
        row_cells(w, y).len() == w,
    decreases w,
{
    broadcast use vstd::set::group_set_axioms;

    if w == 0 {
        assert(row_cells(0, y) =~= Set::empty());
    } else {
        lemma_row_cells_len(w - 1, y);
        assert(row_cells(w, y) =~= row_cells(w - 1, y).insert((w - 1, y)));
        assert(!row_cells(w - 1, y).contains((w - 1, y)));
    }
}

/// The `w` by `h` grid holds exactly `w * h` cells.
pub proof fn lemma_grid_cells_len(w: int, h: int)
    requires
        0 <= w,
        0 <= h,
    ensures
        grid_cells(w, h).finite(),
        grid_cells(w, h).len() == w * h,
    decreases h,
{
    broadcast use vstd::set::group_set_axioms;

    if h == 0 {
        assert(grid_cells(w, 0) =~= Set::empty());
    } else {
        lemma_grid_cells_len(w, h - 1);
        lemma_row_cells_len(w, h - 1);
        assert(grid_cells(w, h) =~= grid_cells(w, h - 1) + row_cells(w, h - 1));
        assert(grid_cells(w, h - 1).disjoint(row_cells(w, h - 1)));
        vstd::set_lib::lemma_set_disjoint_lens(grid_cells(w, h - 1), row_cells(w, h - 1));
        assert(w * (h - 1) + w == w * h) by (nonlinear_arith);
    }
}

/// A well-formed maze edge set for a `w` by `h` grid: every edge connects two
/// in-bounds cells at Manhattan distance one, and appears in both directions.
pub open spec fn edge_set_wf(es: Set<((int, int), (int, int))>, w: int, h: int) -> bool {
    forall|a: (int, int), b: (int, int)| #[trigger]
        es.contains((a, b)) ==> grid_cells(w, h).contains(a) && grid_cells(w, h).contains(b)
            && cardinal_neighbors(a, b) && es.contains((b, a))
}

/// The spanning edge set that carving from `start` leaves behind: symmetric
/// neighbor edges that connect every grid cell to the start, in the number a
/// spanning tree has.
pub open spec fn carved_spanning(
    es: Set<((int, int), (int, int))>,
    w: int,
    h: int,
    start: (int, int),
) -> bool {
    &&& edge_set_wf(es, w, h)
    &&& es.finite()
    &&& forall|c: (int, int)| grid_cells(w, h).contains(c) ==> connected(es, start, c)
    &&& es.len() == 2 * (w * h - 1)
}

/// A tree carved over one region of the grid: the edges stay inside the
/// region, every region cell is connected to `start`, and the edges number one
/// fewer than the region's cells (counted as symmetric pairs).
pub open spec fn tree_on_region(
    es: Set<((int, int), (int, int))>,
    w: int,
    h: int,
    start: (int, int),
    region: Set<(int, int)>,
) -> bool {
    &&& edge_set_wf(es, w, h)
    &&& es.finite()
    &&& region.finite()
    &&& 1 <= region.len()
    &&& region.contains(start)
    &&& region.subset_of(grid_cells(w, h))
    &&& forall|a: (int, int), b: (int, int)| #[trigger]
        es.contains((a, b)) ==> region.contains(a) && region.contains(b)
    &&& forall|c: (int, int)| #[trigger] region.contains(c) ==> connected(es, start, c)
    &&& es.len() == 2 * (region.len() - 1)
}

/// Whether `s` is closed under stepping to an in-bounds cardinal neighbor.
pub open spec fn adjacency_closed(s: Set<(int, int)>, w: int, h: int) -> bool {
    forall|a: (int, int), b: (int, int)|
        s.contains(a) && grid_cells(w, h).contains(b) && #[trigger] cardinal_neighbors(a, b)
            ==> s.contains(b)
}

/// A set of cells that holds the grid's origin and is closed under stepping to
/// in-bounds neighbors holds every cell of the grid.
pub proof fn lemma_grid_closure(s: Set<(int, int)>, w: int, h: int, c: (int, int))
    requires
        s.contains((0, 0)),
        adjacency_closed(s, w, h),
        grid_cells(w, h).contains(c),
    ensures
        s.contains(c),
    decreases c.0 + c.1,
{
    if c == (0int, 0int) {
    } else if c.0 > 0 {
        let b = (c.0 - 1, c.1);
        lemma_grid_closure(s, w, h, b);
        assert(cardinal_neighbors(b, c));
    } else {
        let b = (c.0, c.1 - 1);
        lemma_grid_closure(s, w, h, b);
        assert(cardinal_neighbors(b, c));
    }
}

} // verus!
