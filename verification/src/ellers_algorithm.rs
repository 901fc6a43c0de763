//! Eller's algorithm implementation
//!
//! Fast algorithm for generating arbitrarily large mazes in linear time,
//! row by row and without recursion.
//!
//! # Algorithm rundown
//! 1. Initialize the fields of the first row to each exist in its own set.
//! 2. Randomly join adjacent fields, but only if they are not already in the
//!    same set.  When joining, merge the two sets (which indicates that the
//!    cells are now connected).
//! 3. For each set, randomly create a vertical connection downward to the next
//!    row.  Each set must have at least one vertical connection created in
//!    this way, or its cells would be permanently cut off from the rows below.
//!    The cell so connected shares the set of the cell above it.
//! 4. Flesh out the next row by placing each field that is not vertically
//!    connected into its own fresh set.
//! 5. Repeat from step 2 until the last row is reached.
//! 6. For the last row, join all adjacent cells which do not yet share a set.
//!
//! The sets are kept as one identifier per cell of the current row; merging a
//! set renames its identifier.  Fresh identifiers are numbered by row, so they
//! never collide with live ones.  Two cells share a set only when a path
//! already connects them, and every set reaches each new row, which is why the
//! finished maze is a single connected component.

use vstd::prelude::*;
use crate::connectivity::{cardinal_neighbors, carved_spanning, connected, edge_set_wf,
    grid_cells, lemma_connected_mono, lemma_connected_refl, lemma_connected_step,
    lemma_connected_sym, lemma_connected_trans};
use crate::coordinates::Coordinates;
use crate::generator::{GenericGeneratorError, Generator};
use crate::graph::{graph_add_edge, graph_edges, graph_new, MazeGraph};
use crate::maze::{find_suitable_goal, Maze};
use crate::rng::MazeRng;

verus! {

/// [`Generator`] implementation which uses Eller's algorithm.
pub struct EllersGenerator {
    rng: MazeRng,
}

/// Cells of row `y` that share a set identifier are connected in the graph.
spec fn row_connected(es: Set<((int, int), (int, int))>, row_sets: Seq<u64>, y: int) -> bool {
    forall|x1: int, x2: int|
        0 <= x1 < row_sets.len() && 0 <= x2 < row_sets.len() && #[trigger] row_sets[x1]
            == #[trigger] row_sets[x2] ==> connected(es, (x1, y), (x2, y))
}

/// Every cell of the rows up to and including `y` can be reached from some
/// cell of row `y`.
spec fn rows_reach(es: Set<((int, int), (int, int))>, w: int, y: int) -> bool {
    forall|c: (int, int)| #[trigger]
        grid_cells(w, y + 1).contains(c) ==> exists|x: int|
            0 <= x < w && #[trigger] connected(es, (x, y), c)
}

/// Some member of the set of the cell in column `xp` of row `y` has a passage
/// down into the next row.
spec fn has_down_link(
    es: Set<((int, int), (int, int))>,
    row_sets: Seq<u64>,
    xp: int,
    y: int,
    w: int,
) -> bool {
    exists|m: int|
        0 <= m < w && row_sets[m] == row_sets[xp] && #[trigger] es.contains(
            ((m, y), (m, y + 1)),
        )
}

impl EllersGenerator {
    /// The generator's random source, as a mathematical value.
    pub closed spec fn spec_rng(self) -> MazeRng {
        self.rng
    }

    /// Create a new instance.
    ///
    /// Optionally a 32 byte seed can be provided to seed the internal random
    /// generator.  Giving a seed results in identical mazes being generated
    /// while omitting it sources the random generator from entropy.
    pub fn new(seed: Option<[u8; 32]>) -> (r: EllersGenerator)
        ensures
            seed matches Some(s) ==> r.spec_rng().seed() == s@,
            r.spec_rng().drawn() == 0,
    {
        EllersGenerator {
            rng: match seed {
                None => MazeRng::from_entropy(),
                Some(seed) => MazeRng::from_seed(seed),
            },
        }
    }

    /// Initialize the fields of the first row to each exist in its own set.
    fn init_fields_first_row(width: i32) -> (r: Vec<u64>)
        requires
            1 <= width,
        ensures
            r@.len() == width as int,
            forall|i: int| 0 <= i < r@.len() ==> (#[trigger] r@[i]) == i,
    {
        let mut r: Vec<u64> = Vec::new();
        let mut x: i32 = 0;
        while x < width
            invariant
                0 <= x <= width,
                r@.len() == x,
                forall|i: int| 0 <= i < r@.len() ==> (#[trigger] r@[i]) == i,
            decreases width - x,
        {
            r.push(x as u64);
            x = x + 1;
        }
        r
    }

    /// Join the containing sets of two horizontally adjacent fields: record
    /// the passage between them and rename the right cell's whole set to the
    /// left cell's identifier.  Cells that shared a set keep sharing one, and
    /// the two merged sets are now connected through the new passage.
    fn join_sets_of_fields(
        graph: &mut MazeGraph,
        row_sets: &mut Vec<u64>,
        x: i32,
        y: i32,
        width: i32,
        height: i32,
    )
        requires
            1 <= width,
            1 <= height,
            0 <= x < width - 1,
            0 <= y < height,
            old(row_sets)@.len() == width as int,
            edge_set_wf(graph_edges(*old(graph)), width as int, height as int),
            row_connected(graph_edges(*old(graph)), old(row_sets)@, y as int),
        ensures
            final(row_sets)@.len() == width as int,
            forall|j: int|
                0 <= j < width as int ==> #[trigger] final(row_sets)@[j] == (if old(
                    row_sets,
                )@[j] == old(row_sets)@[x as int + 1] {
                    old(row_sets)@[x as int]
                } else {
                    old(row_sets)@[j]
                }),
            graph_edges(*final(graph)) == graph_edges(*old(graph)).insert(
                ((x as int, y as int), (x as int + 1, y as int)),
            ).insert(((x as int + 1, y as int), (x as int, y as int))),
            edge_set_wf(graph_edges(*final(graph)), width as int, height as int),
            graph_edges(*old(graph)).subset_of(graph_edges(*final(graph))),
            row_connected(graph_edges(*final(graph)), final(row_sets)@, y as int),
    {
        let ghost sets0 = row_sets@;
        let a = row_sets[x as usize];
        let b = row_sets[(x + 1) as usize];
        let ghost es_old = graph_edges(*graph);
        graph_add_edge(graph, Coordinates::new(x, y), Coordinates::new(x + 1, y));
        let ghost es = graph_edges(*graph);
        proof {
            let ca = (x as int, y as int);
            let cb = (x as int + 1, y as int);
            assert forall|p: (int, int), q: (int, int)| #[trigger]
                es.contains((p, q)) implies grid_cells(width as int, height as int).contains(p)
                && grid_cells(width as int, height as int).contains(q) && cardinal_neighbors(p, q)
                && es.contains((q, p)) by {
                if !es_old.contains((p, q)) {
                    assert((p, q) == (ca, cb) || (p, q) == (cb, ca));
                }
            }
        }
        let mut i: usize = 0;
        while i < row_sets.len()
            invariant
                row_sets@.len() == sets0.len(),
                i <= row_sets@.len(),
                forall|j: int|
                    0 <= j < i ==> #[trigger] row_sets@[j] == (if sets0[j] == b {
                        a
                    } else {
                        sets0[j]
                    }),
                forall|j: int| i <= j < row_sets@.len() ==> #[trigger] row_sets@[j] == sets0[j],
            decreases row_sets@.len() - i,
        {
            if row_sets[i] == b {
                row_sets.set(i, a);
            }
            i = i + 1;
        }
        proof {
            let ca = (x as int, y as int);
            let cb = (x as int + 1, y as int);
            assert(sets0[x as int] == a && sets0[x as int + 1] == b);
            // two cells that now share an identifier were either already in
            // the same set, or sat in the two sets just merged; in the latter
            // case the new passage links their connections
            assert forall|x1: int, x2: int|
                0 <= x1 < row_sets@.len() && 0 <= x2 < row_sets@.len() && #[trigger] row_sets@[x1]
                    == #[trigger] row_sets@[x2] implies connected(es, (x1, y as int), (
                x2,
                y as int,
            )) by {
                let c1 = (x1, y as int);
                let c2 = (x2, y as int);
                if sets0[x1] == sets0[x2] {
                    lemma_connected_mono(es_old, es, c1, c2);
                } else if sets0[x1] == a && sets0[x2] == b {
                    lemma_connected_mono(es_old, es, c1, ca);
                    lemma_connected_step(es, c1, ca, cb);
                    lemma_connected_mono(es_old, es, cb, c2);
                    lemma_connected_trans(es, c1, cb, c2);
                } else {
                    assert(sets0[x1] == b && sets0[x2] == a);
                    lemma_connected_mono(es_old, es, c1, cb);
                    lemma_connected_step(es, c1, cb, ca);
                    lemma_connected_mono(es_old, es, ca, c2);
                    lemma_connected_trans(es, c1, ca, c2);
                }
            }
        }
    }

    /// Randomly join adjacent fields, but only if they are not already in the
    /// same set.
    fn randomly_join_fields(
        &mut self,
        graph: &mut MazeGraph,
        row_sets: &mut Vec<u64>,
        y: i32,
        width: i32,
        height: i32,
        Ghost(id_bound): Ghost<int>,
    )
        requires
            1 <= width,
            1 <= height,
            0 <= y < height,
            old(row_sets)@.len() == width as int,
            forall|i: int| 0 <= i < width as int ==> (#[trigger] old(row_sets)@[i]) < id_bound,
            graph_edges(*old(graph)).finite(),
            forall|a: (int, int), b: (int, int)| #[trigger]
                graph_edges(*old(graph)).contains((a, b)) ==> a.1 <= y as int && b.1 <= y as int
                    && !(a.1 == y as int && b.1 == y as int),
            edge_set_wf(graph_edges(*old(graph)), width as int, height as int),
            row_connected(graph_edges(*old(graph)), old(row_sets)@, y as int),
        ensures
            final(row_sets)@.len() == width as int,
            forall|i: int| 0 <= i < width as int ==> (#[trigger] final(row_sets)@[i]) < id_bound,
            graph_edges(*final(graph)).finite(),
            forall|a: (int, int), b: (int, int)| #[trigger]
                graph_edges(*final(graph)).contains((a, b)) ==> a.1 <= y as int && b.1
                    <= y as int,
            graph_edges(*final(graph)).len() + 2 * final(row_sets)@.to_set().len()
                == graph_edges(*old(graph)).len() + 2 * old(row_sets)@.to_set().len(),
            edge_set_wf(graph_edges(*final(graph)), width as int, height as int),
            graph_edges(*old(graph)).subset_of(graph_edges(*final(graph))),
            row_connected(graph_edges(*final(graph)), final(row_sets)@, y as int),
    {
        let ghost es_in = graph_edges(*graph);
        let ghost sets_in = row_sets@;
        let ghost yi = y as int;
        let mut x: i32 = 0;
        while x < width - 1
            invariant
                1 <= width,
                1 <= height,
                0 <= y < height,
                yi == y as int,
                0 <= x <= (if width >= 1 { width - 1 } else { 0 }),
                row_sets@.len() == width as int,
                forall|i: int| 0 <= i < width as int ==> (#[trigger] row_sets@[i]) < id_bound,
                graph_edges(*graph).finite(),
                forall|a: (int, int), b: (int, int)| #[trigger]
                    graph_edges(*graph).contains((a, b)) ==> a.1 <= yi && b.1 <= yi && ((a.1 == yi
                        && b.1 == yi) ==> (a.0 < x || b.0 < x)),
                graph_edges(*graph).len() + 2 * row_sets@.to_set().len() == es_in.len() + 2
                    * sets_in.to_set().len(),
                edge_set_wf(graph_edges(*graph), width as int, height as int),
                es_in.subset_of(graph_edges(*graph)),
                row_connected(graph_edges(*graph), row_sets@, y as int),
            decreases width - 1 - x,
        {
            let flip = self.rng.coin();
            if flip && row_sets[x as usize] != row_sets[(x + 1) as usize] {
                let ghost es_pre = graph_edges(*graph);
                let ghost sets_pre = row_sets@;
                let ghost a = row_sets@[x as int];
                let ghost b = row_sets@[x as int + 1];
                Self::join_sets_of_fields(graph, row_sets, x, y, width, height);
                proof {
                    broadcast use vstd::set::group_set_axioms;
                    broadcast use vstd::seq_lib::seq_to_set_is_finite;

                    let es = graph_edges(*graph);
                    let e1 = ((x as int, yi), (x as int + 1, yi));
                    let e2 = ((x as int + 1, yi), (x as int, yi));
                    // the joined passage was not recorded before, so the edge
                    // set grows by exactly the two orientations
                    assert(!es_pre.contains(e1));
                    assert(!es_pre.contains(e2));
                    assert(es.len() == es_pre.len() + 2);
                    // the right set's identifier disappears from the row, so
                    // the row holds one identifier fewer
                    assert(row_sets@.to_set() =~= sets_pre.to_set().remove(b)) by {
                        assert forall|v: u64| #[trigger]
                            row_sets@.to_set().contains(v) implies sets_pre.to_set().contains(v)
                            && v != b by {
                            let j = choose|j: int|
                                0 <= j < row_sets@.len() && row_sets@[j] == v;
                            if sets_pre[j] == b {
                                assert(v == a);
                                assert(sets_pre[x as int] == a);
                                assert(sets_pre.contains(a));
                            } else {
                                assert(sets_pre[j] == v);
                                assert(sets_pre.contains(v));
                            }
                        }
                        assert forall|v: u64|
                            sets_pre.to_set().contains(v) && v != b implies row_sets@.to_set().contains(
                            v,
                        ) by {
                            let j = choose|j: int| 0 <= j < sets_pre.len() && sets_pre[j] == v;
                            assert(row_sets@[j] == v);
                            assert(row_sets@.contains(v));
                        }
                    }
                    assert(sets_pre[x as int + 1] == b);
                    assert(sets_pre.contains(b));
                    assert(sets_pre.to_set().contains(b));
                    assert(sets_pre.to_set().finite());
                    assert(sets_pre.to_set().remove(b).len() == sets_pre.to_set().len() - 1);
                }
            }
            x = x + 1;
        }
    }

    /// Flesh out the next row: a fresh singleton set for every cell, numbered
    /// so that fresh identifiers never collide with the current row's.
    fn flesh_out_next_row(next_y: i32, width: i32, height: i32) -> (r: Vec<u64>)
        requires
            1 <= width,
            1 <= height,
            1 <= next_y < height,
        ensures
            r@.len() == width as int,
            forall|i: int|
                0 <= i < r@.len() ==> (#[trigger] r@[i]) == next_y as int * width as int + i,
    {
        let mut r: Vec<u64> = Vec::new();
        proof {
            assert(next_y as int * width as int <= 0x7fffffff * 0x7fffffff) by (nonlinear_arith)
                requires
                    1 <= next_y <= 0x7fffffff,
                    1 <= width <= 0x7fffffff,
            ;
        }
        let base: u64 = (next_y as u64) * (width as u64);
        let mut x: i32 = 0;
        while x < width
            invariant
                1 <= width,
                1 <= next_y,
                0 <= x <= width,
                base == next_y as int * width as int,
                base + width <= u64::MAX,
                r@.len() == x,
                forall|i: int| 0 <= i < r@.len() ==> (#[trigger] r@[i]) == base + i,
            decreases width - x,
        {
            r.push(base + (x as u64));
            x = x + 1;
        }
        r
    }

    /// For each set, create one vertical connection downward to the next row:
    /// a random member of the set carries its identifier down.  Afterwards
    /// every set of the current row has a member with a passage into the next
    /// row, and a next-row cell keeps its fresh identifier unless it is such
    /// a carrier.
    #[verifier::rlimit(100)]
    fn create_downward_connections(
        &mut self,
        graph: &mut MazeGraph,
        row_sets: &Vec<u64>,
        next_sets: &mut Vec<u64>,
        y: i32,
        width: i32,
        height: i32,
        Ghost(id_bound): Ghost<int>,
    )
        requires
            1 <= width,
            1 <= height,
            0 <= y < height - 1,
            row_sets@.len() == width as int,
            old(next_sets)@.len() == width as int,
            forall|i: int| 0 <= i < width as int ==> (#[trigger] row_sets@[i]) < id_bound,
            forall|i: int| 0 <= i < width as int ==> (#[trigger] old(next_sets)@[i]) >= id_bound,
            graph_edges(*old(graph)).finite(),
            forall|a: (int, int), b: (int, int)| #[trigger]
                graph_edges(*old(graph)).contains((a, b)) ==> a.1 <= y as int && b.1 <= y as int,
            edge_set_wf(graph_edges(*old(graph)), width as int, height as int),
        ensures
            final(next_sets)@.len() == width as int,
            graph_edges(*final(graph)).finite(),
            graph_edges(*final(graph)).len() == graph_edges(*old(graph)).len() + 2
                * row_sets@.to_set().len(),
            forall|a: (int, int), b: (int, int)| #[trigger]
                graph_edges(*final(graph)).contains((a, b)) ==> a.1 <= y as int + 1 && b.1
                    <= y as int + 1 && !(a.1 == y as int + 1 && b.1 == y as int + 1),
            edge_set_wf(graph_edges(*final(graph)), width as int, height as int),
            graph_edges(*old(graph)).subset_of(graph_edges(*final(graph))),
            forall|i: int|
                0 <= i < width as int ==> #[trigger] final(next_sets)@[i] == old(next_sets)@[i]
                    || (final(next_sets)@[i] == row_sets@[i] && graph_edges(
                    *final(graph),
                ).contains(((i, y as int), (i, y as int + 1)))),
            forall|i: int, j: int|
                0 <= i < width as int && 0 <= j < width as int && i != j && final(next_sets)@[i]
                    != old(next_sets)@[i] && final(next_sets)@[j] != old(next_sets)@[j] ==> (
                #[trigger] row_sets@[i]) != (#[trigger] row_sets@[j]),
            forall|xp: int|
                0 <= xp < width as int ==> #[trigger] has_down_link(
                    graph_edges(*final(graph)),
                    row_sets@,
                    xp,
                    y as int,
                    width as int,
                ),
    {
        let ghost es_fn = graph_edges(*old(graph));
        let ghost yi = y as int;
        let mut x: i32 = 0;
        proof {
            broadcast use vstd::seq_lib::seq_to_set_is_finite;

            assert(row_sets@.subrange(0, 0) =~= Seq::<u64>::empty());
            assert(row_sets@.subrange(0, 0).to_set() =~= Set::<u64>::empty());
        }
        while x < width
            invariant
                1 <= width,
                1 <= height,
                0 <= y < height - 1,
                yi == y as int,
                0 <= x <= width,
                row_sets@.len() == width as int,
                next_sets@.len() == width as int,
                old(next_sets)@.len() == width as int,
                forall|i: int| 0 <= i < width as int ==> (#[trigger] row_sets@[i]) < id_bound,
                forall|i: int|
                    0 <= i < width as int ==> (#[trigger] old(next_sets)@[i]) >= id_bound,
                es_fn == graph_edges(*old(graph)),
                es_fn.finite(),
                forall|a: (int, int), b: (int, int)| #[trigger]
                    es_fn.contains((a, b)) ==> a.1 <= yi && b.1 <= yi,
                graph_edges(*graph).finite(),
                graph_edges(*graph).len() == es_fn.len() + 2 * row_sets@.subrange(
                    0,
                    x as int,
                ).to_set().len(),
                forall|a: (int, int), b: (int, int)| #[trigger]
                    graph_edges(*graph).contains((a, b)) ==> es_fn.contains((a, b)) || ((a.1 == yi
                        && b.1 == yi + 1 && a.0 == b.0) || (a.1 == yi + 1 && b.1 == yi && a.0
                        == b.0)),
                forall|m: int| #[trigger]
                    graph_edges(*graph).contains(((m, yi), (m, yi + 1))) ==> 0 <= m < width as int
                        && next_sets@[m] == row_sets@[m] && row_sets@.subrange(
                        0,
                        x as int,
                    ).to_set().contains(row_sets@[m]),
                forall|m1: int, m2: int|
                    #[trigger] graph_edges(*graph).contains(((m1, yi), (m1, yi + 1)))
                        && #[trigger] graph_edges(*graph).contains(((m2, yi), (m2, yi + 1))) && m1
                        != m2 ==> row_sets@[m1] != row_sets@[m2],
                edge_set_wf(graph_edges(*graph), width as int, height as int),
                graph_edges(*old(graph)).subset_of(graph_edges(*graph)),
                forall|i: int|
                    0 <= i < width as int ==> #[trigger] next_sets@[i] == old(next_sets)@[i] || (
                    next_sets@[i] == row_sets@[i] && graph_edges(*graph).contains(
                        ((i, y as int), (i, y as int + 1)),
                    )),
                forall|xp: int|
                    0 <= xp < x ==> #[trigger] has_down_link(
                        graph_edges(*graph),
                        row_sets@,
                        xp,
                        y as int,
                        width as int,
                    ),
            decreases width - x,
        {
            let ghost es_iter = graph_edges(*graph);
            // only the first member of each set collects the set and draws
            let id = row_sets[x as usize];
            let mut first = true;
            let mut k: i32 = 0;
            while k < x
                invariant
                    0 <= k <= x < width,
                    row_sets@.len() == width as int,
                    first <==> (forall|j: int| 0 <= j < k ==> #[trigger] row_sets@[j] != id),
                decreases x - k,
            {
                if row_sets[k as usize] == id {
                    first = false;
                }
                k = k + 1;
            }
            if first {
                let mut members: Vec<i32> = Vec::new();
                let mut m: i32 = 0;
                while m < width
                    invariant
                        0 <= m <= width,
                        0 <= x < width,
                        row_sets@.len() == width as int,
                        row_sets@[x as int] == id,
                        forall|i: int|
                            0 <= i < members@.len() ==> 0 <= (#[trigger] members@[i]) < width
                                && row_sets@[members@[i] as int] == id,
                        x < m ==> members@.len() > 0,
                    decreases width - m,
                {
                    if row_sets[m as usize] == id {
                        members.push(m);
                        proof {
                            assert(members@.last() == m);
                        }
                    }
                    m = m + 1;
                }
                let pick = self.rng.below(members.len());
                let mx = members[pick];
                proof {
                    assert(members@[pick as int] == mx);
                    assert(0 <= mx < width && row_sets@[mx as int] == id);
                }
                let ghost es_old = graph_edges(*graph);
                proof {
                    broadcast use vstd::set::group_set_axioms;

                    // this column is not a carrier yet: the set's identifier
                    // has no earlier occurrence, so no earlier draw chose it
                    assert(!es_old.contains(((mx as int, yi), (mx as int, yi + 1)))) by {
                        if es_old.contains(((mx as int, yi), (mx as int, yi + 1))) {
                            assert(row_sets@.subrange(0, x as int).to_set().contains(
                                row_sets@[mx as int],
                            ));
                            let j = choose|j: int|
                                0 <= j < row_sets@.subrange(0, x as int).len()
                                    && row_sets@.subrange(0, x as int)[j] == id;
                            assert(row_sets@[j] != id);
                            assert(false);
                        }
                    }
                    assert(!es_old.contains(((mx as int, yi + 1), (mx as int, yi)))) by {
                        if es_old.contains(((mx as int, yi + 1), (mx as int, yi))) {
                            assert(es_old.contains(((mx as int, yi), (mx as int, yi + 1))));
                        }
                    }
                }
                graph_add_edge(graph, Coordinates::new(mx, y), Coordinates::new(mx, y + 1));
                proof {
                    broadcast use vstd::set::group_set_axioms;

                    let es = graph_edges(*graph);
                    let ca = (mx as int, y as int);
                    let cb = (mx as int, y as int + 1);
                    assert(es.len() == es_old.len() + 2);
                    assert forall|p: (int, int), q: (int, int)| #[trigger]
                        es.contains((p, q)) implies grid_cells(
                        width as int,
                        height as int,
                    ).contains(p) && grid_cells(width as int, height as int).contains(q)
                        && cardinal_neighbors(p, q) && es.contains((q, p)) by {
                        if !es_old.contains((p, q)) {
                            assert((p, q) == (ca, cb) || (p, q) == (cb, ca));
                        }
                    }
                    // the new carrier's identifier differs from every earlier
                    // carrier's: those all sit in the prefix
                    assert forall|m1: int, m2: int|
                        #[trigger] es.contains(((m1, yi), (m1, yi + 1))) && #[trigger] es.contains(
                            ((m2, yi), (m2, yi + 1)),
                        ) && m1 != m2 implies row_sets@[m1] != row_sets@[m2] by {
                        if m1 != mx as int && m2 != mx as int {
                            assert(es_old.contains(((m1, yi), (m1, yi + 1))));
                            assert(es_old.contains(((m2, yi), (m2, yi + 1))));
                        } else {
                            let mo = if m1 == mx as int { m2 } else { m1 };
                            assert(es_old.contains(((mo, yi), (mo, yi + 1))));
                            assert(row_sets@.subrange(0, x as int).to_set().contains(
                                row_sets@[mo],
                            ));
                            if row_sets@[mo] == id {
                                let j = choose|j: int|
                                    0 <= j < row_sets@.subrange(0, x as int).len()
                                        && row_sets@.subrange(0, x as int)[j] == id;
                                assert(row_sets@[j] != id);
                                assert(false);
                            }
                        }
                    }
                }
                next_sets.set(mx as usize, id);
                proof {
                    assert(has_down_link(
                        graph_edges(*graph),
                        row_sets@,
                        x as int,
                        y as int,
                        width as int,
                    )) by {
                        assert(row_sets@[mx as int] == id && graph_edges(*graph).contains(
                            ((mx as int, y as int), (mx as int, y as int + 1)),
                        ));
                    }
                }
            }
            proof {
                broadcast use vstd::set::group_set_axioms;
                broadcast use vstd::seq_lib::seq_to_set_is_finite;

                // one more column is accounted for: its identifier joins the
                // prefix, freshly for a first occurrence and idly otherwise
                assert(row_sets@.subrange(0, x as int + 1) =~= row_sets@.subrange(
                    0,
                    x as int,
                ).push(row_sets@[x as int]));
                assert(row_sets@.subrange(0, x as int + 1).to_set() =~= row_sets@.subrange(
                    0,
                    x as int,
                ).to_set().insert(id)) by {
                    broadcast use vstd::prelude::Seq::lemma_push_to_set_commute;

                }
                if first {
                    assert(!row_sets@.subrange(0, x as int).to_set().contains(id)) by {
                        if row_sets@.subrange(0, x as int).to_set().contains(id) {
                            let j = choose|j: int|
                                0 <= j < row_sets@.subrange(0, x as int).len()
                                    && row_sets@.subrange(0, x as int)[j] == id;
                            assert(row_sets@[j] != id);
                        }
                    }
                } else {
                    assert(row_sets@.subrange(0, x as int).to_set().contains(id)) by {
                        let j = choose|j: int| 0 <= j < x && #[trigger] row_sets@[j] == id;
                        assert(row_sets@.subrange(0, x as int)[j] == id);
                    }
                }
            }
            proof {
                let es_now = graph_edges(*graph);
                assert(es_iter.subset_of(es_now));
                assert forall|xp: int| 0 <= xp < x + 1 implies #[trigger] has_down_link(
                    es_now,
                    row_sets@,
                    xp,
                    y as int,
                    width as int,
                ) by {
                    if xp < x {
                        assert(has_down_link(es_iter, row_sets@, xp, y as int, width as int));
                        let m0 = choose|m0: int|
                            0 <= m0 < width as int && row_sets@[m0] == row_sets@[xp]
                                && #[trigger] es_iter.contains(
                                ((m0, y as int), (m0, y as int + 1)),
                            );
                        assert(es_now.contains(((m0, y as int), (m0, y as int + 1))));
                    } else {
                        assert(row_sets@[xp] == id);
                        if first {
                            assert(has_down_link(es_now, row_sets@, x as int, y as int,
                                width as int));
                        } else {
                            let j = choose|j: int| 0 <= j < x && #[trigger] row_sets@[j] == id;
                            assert(has_down_link(es_iter, row_sets@, j, y as int, width as int));
                            let m0 = choose|m0: int|
                                0 <= m0 < width as int && row_sets@[m0] == row_sets@[j]
                                    && #[trigger] es_iter.contains(
                                    ((m0, y as int), (m0, y as int + 1)),
                                );
                            assert(es_now.contains(((m0, y as int), (m0, y as int + 1))));
                        }
                    }
                }
            }
            x = x + 1;
        }
        proof {
            assert(row_sets@.subrange(0, width as int) =~= row_sets@);
            assert forall|i: int, j: int|
                0 <= i < width as int && 0 <= j < width as int && i != j && next_sets@[i] != old(
                    next_sets,
                )@[i] && next_sets@[j] != old(next_sets)@[j] implies (#[trigger] row_sets@[i]) != (
            #[trigger] row_sets@[j]) by {
                assert(graph_edges(*graph).contains(((i, yi), (i, yi + 1))));
                assert(graph_edges(*graph).contains(((j, yi), (j, yi + 1))));
            }
        }
    }

    /// For the last row, join all adjacent cells which do not yet share a
    /// set.  Afterwards the whole row shares one set, so all of its cells are
    /// mutually connected.
    fn join_last_rows(
        &mut self,
        graph: &mut MazeGraph,
        row_sets: &mut Vec<u64>,
        y: i32,
        width: i32,
        height: i32,
    )
        requires
            1 <= width,
            1 <= height,
            0 <= y < height,
            old(row_sets)@.len() == width as int,
            forall|i: int, j: int|
                0 <= i < width as int && 0 <= j < width as int && i != j ==> (
                #[trigger] old(row_sets)@[i]) != (#[trigger] old(row_sets)@[j]),
            graph_edges(*old(graph)).finite(),
            forall|a: (int, int), b: (int, int)| #[trigger]
                graph_edges(*old(graph)).contains((a, b)) ==> !(a.1 == y as int && b.1
                    == y as int),
            edge_set_wf(graph_edges(*old(graph)), width as int, height as int),
            row_connected(graph_edges(*old(graph)), old(row_sets)@, y as int),
        ensures
            graph_edges(*final(graph)).finite(),
            graph_edges(*final(graph)).len() == graph_edges(*old(graph)).len() + 2 * (
            width as int - 1),
            edge_set_wf(graph_edges(*final(graph)), width as int, height as int),
            graph_edges(*old(graph)).subset_of(graph_edges(*final(graph))),
            forall|x1: int, x2: int|
                0 <= x1 < width as int && 0 <= x2 < width as int ==> connected(
                    graph_edges(*final(graph)),
                    (x1, y as int),
                    (x2, y as int),
                ),
    {
        let ghost es_in = graph_edges(*graph);
        let ghost sets_orig = row_sets@;
        let ghost yi = y as int;
        let mut x: i32 = 0;
        while x < width - 1
            invariant
                1 <= width,
                1 <= height,
                0 <= y < height,
                yi == y as int,
                0 <= x <= (if width >= 1 { width - 1 } else { 0 }),
                row_sets@.len() == width as int,
                sets_orig.len() == width as int,
                forall|i: int, j: int|
                    0 <= i < width as int && 0 <= j < width as int && i != j ==> (
                    #[trigger] sets_orig[i]) != (#[trigger] sets_orig[j]),
                es_in.finite(),
                forall|a: (int, int), b: (int, int)| #[trigger]
                    es_in.contains((a, b)) ==> !(a.1 == yi && b.1 == yi),
                graph_edges(*graph).finite(),
                graph_edges(*graph).len() == es_in.len() + 2 * x,
                forall|a: (int, int), b: (int, int)| #[trigger]
                    graph_edges(*graph).contains((a, b)) ==> es_in.contains((a, b)) || (a.1 == yi
                        && b.1 == yi && (a.0 < x || b.0 < x)),
                edge_set_wf(graph_edges(*graph), width as int, height as int),
                es_in.subset_of(graph_edges(*graph)),
                row_connected(graph_edges(*graph), row_sets@, y as int),
                forall|j: int| 0 <= j <= x ==> #[trigger] row_sets@[j] == sets_orig[0],
                forall|j: int| x < j < width as int ==> #[trigger] row_sets@[j] == sets_orig[j],
            decreases width - 1 - x,
        {
            let ghost sets_pre = row_sets@;
            let ghost es_pre = graph_edges(*graph);
            proof {
                // the unified prefix identifier is the first cell's original
                // one, and the right neighbor still carries its own
                assert(row_sets@[x as int] == sets_orig[0]);
                assert(row_sets@[x as int + 1] == sets_orig[x as int + 1]);
                assert(sets_orig[0] != sets_orig[x as int + 1]);
            }
            if row_sets[x as usize] != row_sets[(x + 1) as usize] {
                Self::join_sets_of_fields(graph, row_sets, x, y, width, height);
                proof {
                    broadcast use vstd::set::group_set_axioms;

                    let es = graph_edges(*graph);
                    let e1 = ((x as int, yi), (x as int + 1, yi));
                    let e2 = ((x as int + 1, yi), (x as int, yi));
                    assert(!es_pre.contains(e1));
                    assert(!es_pre.contains(e2));
                    assert(es.len() == es_pre.len() + 2);
                    // the whole prefix carried the left identifier, so after
                    // the merge it carries the joined one
                    assert(row_sets@[x as int + 1] == sets_pre[x as int]);
                    assert forall|j: int| 0 <= j <= x + 1 implies #[trigger] row_sets@[j]
                        == sets_orig[0] by {
                        if j <= x {
                            assert(sets_pre[j] == sets_pre[x as int]);
                            assert(row_sets@[j] == sets_pre[j] || row_sets@[j]
                                == sets_pre[x as int]);
                        }
                    }
                    assert forall|j: int| x + 1 < j < width as int implies #[trigger] row_sets@[j]
                        == sets_orig[j] by {
                        assert(sets_pre[j] == sets_orig[j]);
                        assert(sets_orig[j] != sets_orig[x as int + 1]);
                        assert(row_sets@[j] == sets_pre[j] || row_sets@[j]
                            == sets_pre[x as int]);
                        if row_sets@[j] == sets_pre[x as int] && sets_pre[j] != sets_pre[x as int] {
                            assert(sets_pre[j] == sets_pre[x as int + 1]);
                            assert(false);
                        }
                    }
                }
            }
            x = x + 1;
        }
        proof {
            assert forall|x1: int, x2: int|
                0 <= x1 < width as int && 0 <= x2 < width as int implies connected(
                graph_edges(*graph),
                (x1, y as int),
                (x2, y as int),
            ) by {
                assert(row_sets@[x1] == row_sets@[width as int - 1]);
                assert(row_sets@[x2] == row_sets@[width as int - 1]);
            }
        }
    }
}

impl Generator for EllersGenerator {
    /// Build the maze row by row and pick the goal by breadth-first search;
    /// the result is a spanning tree of the whole grid.
    #[verifier::rlimit(100)]
    fn generate(&mut self, width: i32, height: i32) -> (r: Result<Maze, GenericGeneratorError>)
        ensures
            r matches Ok(m) ==> carved_spanning(
                m.edges(),
                width as int,
                height as int,
                m.spec_start(),
            ),
            r matches Ok(m) ==> (width as int * height as int >= 2 ==> m.spec_goal()
                != m.spec_start()),
    {
        if width < 1 || height < 1 {
            return Err(GenericGeneratorError::InvalidDimensions(width, height));
        }
        let ghost w = width as int;
        let ghost h = height as int;
        let mut graph = graph_new();
        let mut row_sets = Self::init_fields_first_row(width);
        proof {
            broadcast use vstd::set::group_set_axioms;

            assert(edge_set_wf(graph_edges(graph), w, h));
            assert(graph_edges(graph).finite());
            assert(graph_edges(graph).len() == 0);
            assert forall|x1: int, x2: int|
                0 <= x1 < row_sets@.len() && 0 <= x2 < row_sets@.len() && #[trigger] row_sets@[x1]
                    == #[trigger] row_sets@[x2] implies connected(
                graph_edges(graph),
                (x1, 0),
                (x2, 0),
            ) by {
                assert(x1 == x2);
                lemma_connected_refl(graph_edges(graph), (x1, 0));
            }
            assert forall|c: (int, int)| #[trigger]
                grid_cells(w, 1).contains(c) implies exists|x: int|
                0 <= x < w && #[trigger] connected(graph_edges(graph), (x, 0), c) by {
                lemma_connected_refl(graph_edges(graph), c);
                assert(c.1 == 0);
                assert(0 <= c.0 < w && connected(graph_edges(graph), (c.0, 0), c));
            }
        }
        let mut y: i32 = 0;
        while y < height - 1
            invariant
                1 <= width,
                1 <= height,
                w == width as int,
                h == height as int,
                0 <= y <= (if height >= 1 { height - 1 } else { 0 }),
                row_sets@.len() == w,
                forall|i: int| 0 <= i < w ==> (#[trigger] row_sets@[i]) < (y as int + 1) * w,
                forall|i: int, j: int|
                    0 <= i < w && 0 <= j < w && i != j ==> (#[trigger] row_sets@[i]) != (
                    #[trigger] row_sets@[j]),
                graph_edges(graph).finite(),
                graph_edges(graph).len() == 2 * (w * (y as int)),
                forall|a: (int, int), b: (int, int)| #[trigger]
                    graph_edges(graph).contains((a, b)) ==> a.1 <= y as int && b.1 <= y as int
                        && !(a.1 == y as int && b.1 == y as int),
                edge_set_wf(graph_edges(graph), w, h),
                row_connected(graph_edges(graph), row_sets@, y as int),
                rows_reach(graph_edges(graph), w, y as int),
            decreases height - 1 - y,
        {
            let ghost yi = y as int;
            let ghost es0 = graph_edges(graph);
            let ghost sets_before_join = row_sets@;
            self.randomly_join_fields(
                &mut graph,
                &mut row_sets,
                y,
                width,
                height,
                Ghost((yi + 1) * w),
            );
            let ghost es1 = graph_edges(graph);
            proof {
                // connections reaching row y survive the extra edges
                assert forall|c: (int, int)| #[trigger]
                    grid_cells(w, yi + 1).contains(c) implies exists|x: int|
                    0 <= x < w && #[trigger] connected(es1, (x, yi), c) by {
                    let x0 = choose|x0: int| 0 <= x0 < w && #[trigger] connected(es0, (x0, yi), c);
                    lemma_connected_mono(es0, es1, (x0, yi), c);
                }
            }
            let mut next_sets = Self::flesh_out_next_row(y + 1, width, height);
            let ghost fresh_row = next_sets@;
            self.create_downward_connections(
                &mut graph,
                &row_sets,
                &mut next_sets,
                y,
                width,
                height,
                Ghost((yi + 1) * w),
            );
            let ghost es2 = graph_edges(graph);
            proof {
                // the next row's identifiers connect its cells: fresh ones are
                // singletons, carried ones hang below one merged set
                assert forall|x1: int, x2: int|
                    0 <= x1 < next_sets@.len() && 0 <= x2 < next_sets@.len()
                        && #[trigger] next_sets@[x1] == #[trigger] next_sets@[x2] implies connected(
                    es2,
                    (x1, yi + 1),
                    (x2, yi + 1),
                ) by {
                    if x1 == x2 {
                        lemma_connected_refl(es2, (x1, yi + 1));
                    } else {
                        // a fresh identifier is unique to its column and
                        // larger than every carried one, so both cells carried
                        // an identifier down from the same set
                        assert(fresh_row[x1] == (yi + 1) * w + x1);
                        assert(fresh_row[x2] == (yi + 1) * w + x2);
                        if next_sets@[x1] == fresh_row[x1] && next_sets@[x2] == fresh_row[x2] {
                            assert(false);
                        } else if next_sets@[x1] == fresh_row[x1] {
                            assert(next_sets@[x2] == row_sets@[x2]);
                            assert((row_sets@[x2] as int) < (yi + 1) * w);
                            assert(false);
                        } else if next_sets@[x2] == fresh_row[x2] {
                            assert(next_sets@[x1] == row_sets@[x1]);
                            assert((row_sets@[x1] as int) < (yi + 1) * w);
                            assert(false);
                        }
                        assert(next_sets@[x1] == row_sets@[x1] && es2.contains(
                            ((x1, yi), (x1, yi + 1)),
                        ));
                        assert(next_sets@[x2] == row_sets@[x2] && es2.contains(
                            ((x2, yi), (x2, yi + 1)),
                        ));
                        assert(row_sets@[x1] == row_sets@[x2]);
                        assert(connected(es1, (x1, yi), (x2, yi)));
                        lemma_connected_mono(es1, es2, (x1, yi), (x2, yi));
                        lemma_connected_refl(es2, (x1, yi + 1));
                        assert(es2.contains(((x1, yi + 1), (x1, yi))));
                        lemma_connected_step(es2, (x1, yi + 1), (x1, yi + 1), (x1, yi));
                        lemma_connected_trans(es2, (x1, yi + 1), (x1, yi), (x2, yi));
                        lemma_connected_step(es2, (x1, yi + 1), (x2, yi), (x2, yi + 1));
                    }
                }
                // every cell of the processed rows hangs below some cell of
                // the next row, through its set's downward connection
                assert forall|c: (int, int)| #[trigger]
                    grid_cells(w, yi + 2).contains(c) implies exists|x: int|
                    0 <= x < w && #[trigger] connected(es2, (x, yi + 1), c) by {
                    if c.1 == yi + 1 {
                        lemma_connected_refl(es2, c);
                        assert(0 <= c.0 < w && connected(es2, (c.0, yi + 1), c));
                    } else {
                        assert(grid_cells(w, yi + 1).contains(c));
                        let x0 = choose|x0: int| 0 <= x0 < w && #[trigger] connected(es1, (x0, yi), c);
                        assert(has_down_link(es2, row_sets@, x0, yi, w));
                        let m = choose|m: int|
                            0 <= m < w && row_sets@[m] == row_sets@[x0] && #[trigger] es2.contains(
                                ((m, yi), (m, yi + 1)),
                            );
                        assert(connected(es1, (m, yi), (x0, yi)));
                        lemma_connected_mono(es1, es2, (m, yi), (x0, yi));
                        lemma_connected_mono(es1, es2, (x0, yi), c);
                        lemma_connected_refl(es2, (m, yi + 1));
                        assert(es2.contains(((m, yi + 1), (m, yi))));
                        lemma_connected_step(es2, (m, yi + 1), (m, yi + 1), (m, yi));
                        lemma_connected_trans(es2, (m, yi + 1), (m, yi), (x0, yi));
                        lemma_connected_trans(es2, (m, yi + 1), (x0, yi), c);
                    }
                }
            }
            proof {
                // identifiers of the next row stay below the next bound and
                // are pairwise distinct, and the edge count has grown by one
                // spanning row: the joins traded edges for merged sets one for
                // one, and the downward pass added one edge per residual set
                assert forall|i: int| 0 <= i < w implies (#[trigger] next_sets@[i]) < (yi + 2)
                    * w by {
                    assert((yi + 1) * w + w == (yi + 2) * w) by (nonlinear_arith);
                    if next_sets@[i] == fresh_row[i] {
                        assert(fresh_row[i] == (yi + 1) * w + i);
                    } else {
                        assert(next_sets@[i] == row_sets@[i]);
                        assert((row_sets@[i] as int) < (yi + 1) * w);
                        assert((yi + 1) * w <= (yi + 2) * w) by (nonlinear_arith)
                            requires 1 <= w,
                        ;
                    }
                }
                assert forall|i: int, j: int|
                    0 <= i < w && 0 <= j < w && i != j implies (#[trigger] next_sets@[i]) != (
                #[trigger] next_sets@[j]) by {
                    if next_sets@[i] == fresh_row[i] && next_sets@[j] == fresh_row[j] {
                        assert(fresh_row[i] == (yi + 1) * w + i);
                        assert(fresh_row[j] == (yi + 1) * w + j);
                    } else if next_sets@[i] == fresh_row[i] {
                        assert(next_sets@[j] == row_sets@[j]);
                        assert((row_sets@[j] as int) < (yi + 1) * w);
                        assert(fresh_row[i] == (yi + 1) * w + i);
                    } else if next_sets@[j] == fresh_row[j] {
                        assert(next_sets@[i] == row_sets@[i]);
                        assert((row_sets@[i] as int) < (yi + 1) * w);
                        assert(fresh_row[j] == (yi + 1) * w + j);
                    } else {
                        assert(next_sets@[i] == row_sets@[i]);
                        assert(next_sets@[j] == row_sets@[j]);
                        assert(row_sets@[i] != row_sets@[j]);
                    }
                }
                assert(graph_edges(graph).len() == 2 * (w * (yi + 1))) by {
                    assert(sets_before_join.to_set().len() == w) by {
                        assert(sets_before_join.no_duplicates());
                        sets_before_join.unique_seq_to_set();
                    }
                    assert(2 * (w * yi) + 2 * w == 2 * (w * (yi + 1))) by (nonlinear_arith);
                }
            }
            row_sets = next_sets;
            y = y + 1;
        }
        let ghost es_rows = graph_edges(graph);
        self.join_last_rows(&mut graph, &mut row_sets, height - 1, width, height);
        let ghost es_fin = graph_edges(graph);
        proof {
            assert(es_fin.len() == 2 * (w * h - 1)) by {
                assert(es_rows.len() == 2 * (w * (h - 1)));
                assert(2 * (w * (h - 1)) + 2 * (w - 1) == 2 * (w * h - 1)) by (nonlinear_arith);
            }
            // the last row is fully joined and every cell reaches it, so the
            // whole grid is connected to the origin
            assert forall|c: (int, int)| grid_cells(w, h).contains(c) implies connected(
                es_fin,
                (0int, 0int),
                c,
            ) by {
                assert(grid_cells(w, (h - 1) + 1).contains(c));
                let xc = choose|xc: int| 0 <= xc < w && #[trigger] connected(es_rows, (xc, h - 1), c);
                lemma_connected_mono(es_rows, es_fin, (xc, h - 1), c);
                let c0 = (0int, 0int);
                assert(grid_cells(w, (h - 1) + 1).contains(c0));
                let x0 = choose|x0: int| 0 <= x0 < w && #[trigger] connected(es_rows, (x0, h - 1), c0);
                lemma_connected_mono(es_rows, es_fin, (x0, h - 1), c0);
                lemma_connected_sym(es_fin, (x0, h - 1), c0);
                assert(connected(es_fin, (x0, h - 1), (xc, h - 1)));
                lemma_connected_trans(es_fin, c0, (x0, h - 1), (xc, h - 1));
                lemma_connected_trans(es_fin, c0, (xc, h - 1), c);
            }
        }
        let start = Coordinates::new(0, 0);
        proof {
            if width as int * height as int >= 2 {
                crate::connectivity::lemma_spanning_origin_edge(
                    graph_edges(graph),
                    width as int,
                    height as int,
                );
            }
        }
        let goal = find_suitable_goal(&graph, width, height, start);
        let maze = Maze::new(width, height, start, goal, graph);
        Ok(maze)
    }
}

} // verus!
