//! Prim's algorithm implementation (randomized variant)
//!
//! Rather than working depth-first, this algorithm starts at one point and
//! grows outward from it:
//!
//! 1. Mark the start cell as part of the maze and put its neighbors into the
//!    frontier, the set of cells adjacent to the maze but not yet inside it.
//! 2. While the frontier is non-empty, pick a frontier cell at random, carve a
//!    passage to a random already-included neighbor of it, include the cell,
//!    and extend the frontier with its new neighbors.
//!
//! A frontier cell always has an included neighbor; a frontier cell without
//! one would mark a broken invariant and is surfaced as an internal error
//! rather than silently ignored.

use vstd::prelude::*;
use crate::connectivity::{adjacency_closed, cardinal_neighbors, carved_spanning, connected,
    edge_set_wf, grid_cells, lemma_connected_mono, lemma_connected_refl, lemma_connected_step,
    lemma_grid_cells_len, lemma_grid_closure, lemma_neighbor_is_step};
use crate::coordinates::{cell_step, views_of, Coordinates};
use crate::direction::Direction;
use crate::generator::{GenericGeneratorError, Generator};
use crate::graph::{graph_add_edge, graph_edges, graph_new, MazeGraph};
use crate::maze::{coords_contain, find_suitable_goal, Maze};
use crate::rng::MazeRng;

verus! {

/// [`Generator`] implementation which uses Prim's algorithm.
pub struct PrimsGenerator {
    rng: MazeRng,
}

impl PrimsGenerator {
    /// The generator's random source, as a mathematical value.
    pub closed spec fn spec_rng(self) -> MazeRng {
        self.rng
    }

    /// Create a new instance.
    ///
    /// Optionally a 32 byte seed can be provided to seed the internal random
    /// generator.  Giving a seed results in identical mazes being generated
    /// while omitting it sources the random generator from entropy.
    pub fn new(seed: Option<[u8; 32]>) -> (r: PrimsGenerator)
        ensures
            seed matches Some(s) ==> r.spec_rng().seed() == s@,
            r.spec_rng().drawn() == 0,
    {
        PrimsGenerator {
            rng: match seed {
                None => MazeRng::from_entropy(),
                Some(seed) => MazeRng::from_seed(seed),
            },
        }
    }

    /// Find the in-bounds neighbours of this cell that have been visited.
    fn find_visited_neighbours(
        visited: &Vec<Coordinates>,
        width: i32,
        height: i32,
        c: Coordinates,
    ) -> (r: Vec<Coordinates>)
        requires
            1 <= width,
            1 <= height,
            grid_cells(width as int, height as int).contains(c@),
        ensures
            forall|i: int|
                0 <= i < r@.len() ==> views_of(visited@).contains(#[trigger] r@[i]@)
                    && cardinal_neighbors(c@, r@[i]@),
            forall|d: Direction|
                grid_cells(width as int, height as int).contains(#[trigger] cell_step(c@, d))
                    && views_of(visited@).contains(cell_step(c@, d)) ==> views_of(r@).contains(
                    cell_step(c@, d),
                ),
    {
        let mut r: Vec<Coordinates> = Vec::new();
        let dirs = Direction::all();
        let mut k: usize = 0;
        while k < 4
            invariant
                1 <= width,
                1 <= height,
                grid_cells(width as int, height as int).contains(c@),
                k <= 4,
                dirs@ == Direction::all_directions(),
                forall|i: int|
                    0 <= i < r@.len() ==> views_of(visited@).contains(#[trigger] r@[i]@)
                        && cardinal_neighbors(c@, r@[i]@),
                forall|j: int|
                    0 <= j < k ==> {
                        let b = cell_step(c@, #[trigger] dirs@[j]);
                        grid_cells(width as int, height as int).contains(b) && views_of(
                            visited@,
                        ).contains(b) ==> views_of(r@).contains(b)
                    },
            decreases 4 - k,
        {
            let d = dirs[k];
            let n = c.next(&d);
            let ghost r0 = r@;
            if n.x >= 0 && n.x < width && n.y >= 0 && n.y < height {
                if coords_contain(visited, &n) {
                    r.push(n);
                }
            }
            proof {
                broadcast use vstd::seq_lib::group_seq_properties;

                assert(views_of(r@) =~= if r@.len() == r0.len() {
                    views_of(r0)
                } else {
                    views_of(r0).push(n@)
                });
            }
            k = k + 1;
        }
        proof {
            assert forall|d: Direction|
                grid_cells(width as int, height as int).contains(#[trigger] cell_step(c@, d))
                    && views_of(visited@).contains(cell_step(c@, d)) implies views_of(
                r@,
            ).contains(cell_step(c@, d)) by {
                assert(Direction::all_directions().contains(d));
                let j = choose|j: int|
                    0 <= j < Direction::all_directions().len() && Direction::all_directions()[j]
                        == d;
                assert(dirs@[j] == d);
            }
        }
        r
    }

    /// Add the in-bounds neighbours of `c` that are neither visited nor
    /// already in the frontier to the frontier.
    fn push_unvisited_neighbours(
        frontier: &mut Vec<Coordinates>,
        visited: &Vec<Coordinates>,
        width: i32,
        height: i32,
        c: Coordinates,
    )
        requires
            1 <= width,
            1 <= height,
            grid_cells(width as int, height as int).contains(c@),
            views_of(old(frontier)@).no_duplicates(),
        ensures
            views_of(final(frontier)@).no_duplicates(),
            old(frontier)@.len() <= final(frontier)@.len(),
            forall|i: int|
                0 <= i < old(frontier)@.len() ==> final(frontier)@[i] == old(frontier)@[i],
            forall|i: int|
                old(frontier)@.len() <= i < final(frontier)@.len() ==> {
                    let b = (#[trigger] final(frontier)@[i])@;
                    grid_cells(width as int, height as int).contains(b) && cardinal_neighbors(
                        c@,
                        b,
                    ) && !views_of(visited@).contains(b)
                },
            forall|d: Direction|
                grid_cells(width as int, height as int).contains(#[trigger] cell_step(c@, d))
                    && !views_of(visited@).contains(cell_step(c@, d)) ==> views_of(
                    final(frontier)@,
                ).contains(cell_step(c@, d)),
    {
        let ghost frontier_in = frontier@;
        let dirs = Direction::all();
        let mut k: usize = 0;
        while k < 4
            invariant
                1 <= width,
                1 <= height,
                grid_cells(width as int, height as int).contains(c@),
                k <= 4,
                dirs@ == Direction::all_directions(),
                views_of(frontier@).no_duplicates(),
                frontier_in.len() <= frontier@.len(),
                forall|i: int| 0 <= i < frontier_in.len() ==> frontier@[i] == frontier_in[i],
                forall|i: int|
                    frontier_in.len() <= i < frontier@.len() ==> {
                        let b = (#[trigger] frontier@[i])@;
                        grid_cells(width as int, height as int).contains(b) && cardinal_neighbors(
                            c@,
                            b,
                        ) && !views_of(visited@).contains(b)
                    },
                forall|j: int|
                    0 <= j < k ==> {
                        let b = cell_step(c@, #[trigger] dirs@[j]);
                        grid_cells(width as int, height as int).contains(b) && !views_of(
                            visited@,
                        ).contains(b) ==> views_of(frontier@).contains(b)
                    },
            decreases 4 - k,
        {
            let d = dirs[k];
            let n = c.next(&d);
            let ghost f0 = frontier@;
            if n.x >= 0 && n.x < width && n.y >= 0 && n.y < height {
                if !coords_contain(frontier, &n) && !coords_contain(visited, &n) {
                    frontier.push(n);
                }
            }
            proof {
                broadcast use vstd::seq_lib::group_seq_properties;

                if frontier@.len() > f0.len() {
                    assert(views_of(frontier@) =~= views_of(f0).push(n@));
                } else {
                    assert(views_of(frontier@) =~= views_of(f0));
                }
                assert forall|j: int|
                    0 <= j < k + 1 implies {
                    let b = cell_step(c@, #[trigger] dirs@[j]);
                    grid_cells(width as int, height as int).contains(b) && !views_of(
                        visited@,
                    ).contains(b) ==> views_of(frontier@).contains(b)
                } by {
                    let b = cell_step(c@, dirs@[j]);
                    if grid_cells(width as int, height as int).contains(b) && !views_of(
                        visited@,
                    ).contains(b) {
                        if j < k {
                            let i = choose|i: int|
                                0 <= i < views_of(f0).len() && views_of(f0)[i] == b;
                            assert(views_of(frontier@)[i] == b);
                        } else {
                            assert(b == n@);
                        }
                    }
                }
            }
            k = k + 1;
        }
    }
}

impl Generator for PrimsGenerator {
    /// Grow outward from the origin along a random frontier and pick the goal
    /// by breadth-first search; the result is a spanning tree of the whole
    /// grid.
    #[verifier::rlimit(100)]
    fn generate(&mut self, width: i32, height: i32) -> (r: Result<Maze, GenericGeneratorError>)
        ensures
            r matches Ok(m) ==> carved_spanning(
                m.edges(),
                width as int,
                height as int,
                m.spec_start(),
            ),
            r matches Ok(m) ==> (width as int * height as int >= 2 ==> m.spec_goal()
                != m.spec_start()),
    {
        if width < 1 || height < 1 {
            return Err(GenericGeneratorError::InvalidDimensions(width, height));
        }
        let ghost w = width as int;
        let ghost h = height as int;
        let ghost grid = grid_cells(w, h);
        let start = Coordinates::new(0, 0);
        let ghost mut vis: Set<(int, int)> = Set::empty().insert(start@);

        let mut graph = graph_new();
        let mut visited: Vec<Coordinates> = Vec::new();
        let mut frontier: Vec<Coordinates> = Vec::new();
        visited.push(start);
        proof {
            lemma_grid_cells_len(w, h);
            lemma_connected_refl(graph_edges(graph), start@);
            vstd::set_lib::lemma_len_subset(vis, grid);
            assert(views_of(visited@) =~= seq![start@]);
            assert(views_of(frontier@) =~= Seq::<(int, int)>::empty());
        }
        Self::push_unvisited_neighbours(&mut frontier, &visited, width, height, start);
        proof {
            assert forall|b: (int, int)| views_of(visited@).contains(b) <==> vis.contains(b) by {
                if views_of(visited@).contains(b) {
                    let i = choose|i: int|
                        0 <= i < views_of(visited@).len() && views_of(visited@)[i] == b;
                    assert(b == start@);
                }
                if vis.contains(b) {
                    assert(views_of(visited@)[0] == start@);
                }
            }
            assert forall|a: (int, int), b: (int, int)|
                vis.contains(a) && grid.contains(b) && #[trigger] cardinal_neighbors(a, b)
                    && !vis.contains(b) implies views_of(frontier@).contains(b) by {
                assert(a == start@);
                lemma_neighbor_is_step(start@, b);
                let d = choose|d: Direction| cell_step(start@, d) == b;
                assert(!views_of(visited@).contains(b));
                assert(views_of(frontier@).contains(cell_step(start@, d)));
            }
        }

        while frontier.len() > 0
            invariant
                1 <= w,
                1 <= h,
                w == width as int,
                h == height as int,
                grid == grid_cells(w, h),
                grid.finite(),
                grid.len() == w * h,
                grid.contains(start@),
                start@ == (0int, 0int),
                edge_set_wf(graph_edges(graph), w, h),
                graph_edges(graph).finite(),
                forall|a: (int, int), b: (int, int)| #[trigger]
                    graph_edges(graph).contains((a, b)) ==> vis.contains(a) && vis.contains(b),
                forall|c: (int, int)| #[trigger]
                    vis.contains(c) ==> connected(graph_edges(graph), start@, c) && grid.contains(
                        c,
                    ),
                vis.finite(),
                vis.contains(start@),
                1 <= vis.len() <= w * h,
                graph_edges(graph).len() == 2 * (vis.len() - 1),
                forall|b: (int, int)| views_of(visited@).contains(b) <==> vis.contains(b),
                views_of(frontier@).no_duplicates(),
                forall|i: int|
                    0 <= i < frontier@.len() ==> {
                        let b = (#[trigger] frontier@[i])@;
                        grid.contains(b) && !vis.contains(b) && exists|a: (int, int)|
                            vis.contains(a) && cardinal_neighbors(a, b)
                    },
                forall|a: (int, int), b: (int, int)|
                    vis.contains(a) && grid.contains(b) && #[trigger] cardinal_neighbors(a, b)
                        && !vis.contains(b) ==> views_of(frontier@).contains(b),
            decreases w * h - vis.len(),
        {
            let i = self.rng.below(frontier.len());
            let next = frontier[i];
            proof {
                assert((frontier@[i as int])@ == next@);
                assert(grid.contains(next@) && !vis.contains(next@));
            }
            let nbrs = Self::find_visited_neighbours(&visited, width, height, next);
            if nbrs.len() > 0 {
                let j = self.rng.below(nbrs.len());
                let ncell = nbrs[j];
                proof {
                    assert(views_of(visited@).contains(ncell@) && cardinal_neighbors(
                        next@,
                        ncell@,
                    ));
                    assert(vis.contains(ncell@));
                }
                let ghost es_old = graph_edges(graph);
                let ghost old_vis = vis;
                graph_add_edge(&mut graph, next, ncell);
                proof {
                    let es = graph_edges(graph);
                    assert(!es_old.contains((next@, ncell@)));
                    assert(!es_old.insert((next@, ncell@)).contains((ncell@, next@)));
                    assert(es.len() == es_old.len() + 2);
                    assert forall|a: (int, int), b: (int, int)| #[trigger]
                        es.contains((a, b)) implies grid.contains(a) && grid.contains(b)
                        && cardinal_neighbors(a, b) && es.contains((b, a)) by {
                        if !es_old.contains((a, b)) {
                            assert((a, b) == (next@, ncell@) || (a, b) == (ncell@, next@));
                        }
                    }
                    assert forall|c: (int, int)| vis.contains(c) implies connected(
                        es,
                        start@,
                        c,
                    ) by {
                        lemma_connected_mono(es_old, es, start@, c);
                    }
                    lemma_connected_mono(es_old, es, start@, ncell@);
                    lemma_connected_step(es, start@, ncell@, next@);
                    vis = vis.insert(next@);
                    vstd::set_lib::lemma_len_subset(vis, grid);
                }
                let ghost frontier0 = frontier@;
                let ghost visited0 = visited@;
                frontier.remove(i);
                visited.push(next);
                let ghost frontier1 = frontier@;
                proof {
                    broadcast use vstd::seq_lib::group_seq_properties;

                    assert(views_of(frontier1) =~= views_of(frontier0).remove(i as int));
                    assert(views_of(visited@) =~= views_of(visited0).push(next@));
                    assert forall|b: (int, int)|
                        views_of(visited@).contains(b) <==> vis.contains(b) by {
                        if views_of(visited@).contains(b) {
                            let k = choose|k: int|
                                0 <= k < views_of(visited@).len() && views_of(visited@)[k] == b;
                            if k < visited0.len() {
                                assert(views_of(visited0)[k] == b);
                            }
                        }
                        if vis.contains(b) && b != next@ {
                            let k = choose|k: int|
                                0 <= k < views_of(visited0).len() && views_of(visited0)[k] == b;
                            assert(views_of(visited@)[k] == b);
                        }
                        if b == next@ {
                            assert(views_of(visited@)[visited0.len() as int] == next@);
                        }
                    }
                    // the remaining frontier cells are unchanged and, being
                    // distinct from the removed cell, still unvisited
                    assert forall|k1: int|
                        0 <= k1 < frontier1.len() implies frontier1[k1] == frontier0[if k1
                            < i as int {
                            k1
                        } else {
                            k1 + 1
                        }] by {}
                }
                Self::push_unvisited_neighbours(&mut frontier, &visited, width, height, next);
                proof {
                    // every cell that sat on the old frontier and is still
                    // unvisited keeps its place, and the new cell's unvisited
                    // neighbors have just been added
                    assert forall|a: (int, int), b: (int, int)|
                        vis.contains(a) && grid.contains(b) && #[trigger] cardinal_neighbors(a, b)
                            && !vis.contains(b) implies views_of(frontier@).contains(b) by {
                        if a == next@ {
                            lemma_neighbor_is_step(next@, b);
                            let d = choose|d: Direction| cell_step(next@, d) == b;
                            assert(!views_of(visited@).contains(cell_step(next@, d)));
                            assert(views_of(frontier@).contains(cell_step(next@, d)));
                        } else {
                            let k0 = choose|k0: int|
                                0 <= k0 < views_of(frontier0).len() && views_of(frontier0)[k0]
                                    == b;
                            assert(k0 != i as int);
                            let k1 = if k0 < i as int {
                                k0
                            } else {
                                k0 - 1
                            };
                            assert(views_of(frontier1)[k1] == b);
                            assert(frontier@[k1] == frontier1[k1]);
                            assert(views_of(frontier@)[k1] == b);
                        }
                    }
                    // fresh frontier entries lie beyond the old ones and carry
                    // the new cell as their visited neighbor
                    assert forall|k: int|
                        0 <= k < frontier@.len() implies {
                        let b = (#[trigger] frontier@[k])@;
                        grid.contains(b) && !vis.contains(b) && exists|a: (int, int)|
                            vis.contains(a) && cardinal_neighbors(a, b)
                    } by {
                        let b = frontier@[k]@;
                        if k < frontier1.len() {
                            assert(frontier@[k] == frontier1[k]);
                            let k0: int = if k < i as int { k } else { k + 1 };
                            assert(frontier1[k] == frontier0[k0]);
                            assert(views_of(frontier0)[k0] == b);
                            assert(grid.contains(b));
                            assert(b != next@) by {
                                assert(views_of(frontier0)[i as int] == next@);
                                assert(views_of(frontier0).no_duplicates());
                            }
                            assert(!vis.contains(b));
                            let a0 = choose|a0: (int, int)|
                                old_vis.contains(a0) && cardinal_neighbors(a0, b);
                            assert(vis.contains(a0) && cardinal_neighbors(a0, b));
                        } else {
                            assert(!views_of(visited@).contains(b));
                            assert(!vis.contains(b));
                            assert(vis.contains(next@) && cardinal_neighbors(next@, b));
                        }
                    }
                }
            } else {
                // a frontier cell always has a visited neighbor; this branch
                // marks a broken invariant and is provably unreachable
                proof {
                    let a = choose|a: (int, int)|
                        vis.contains(a) && cardinal_neighbors(a, next@);
                    assert(cardinal_neighbors(next@, a));
                    lemma_neighbor_is_step(next@, a);
                    let d = choose|d: Direction| cell_step(next@, d) == a;
                    assert(grid.contains(cell_step(next@, d)));
                    assert(views_of(visited@).contains(cell_step(next@, d)));
                    assert(views_of(nbrs@).contains(a));
                    assert(false);
                }
                return Err(
                    GenericGeneratorError::InternalError(
                        String::from_str("frontier cell without a visited neighbour"),
                    ),
                );
            }
        }
        proof {
            assert(adjacency_closed(vis, w, h)) by {
                assert forall|a: (int, int), b: (int, int)|
                    vis.contains(a) && grid.contains(b) && #[trigger] cardinal_neighbors(
                        a,
                        b,
                    ) implies vis.contains(b) by {
                    if !vis.contains(b) {
                        assert(views_of(frontier@).contains(b));
                        assert(false);
                    }
                }
            }
            assert forall|c: (int, int)| grid.contains(c) implies vis.contains(c) by {
                lemma_grid_closure(vis, w, h, c);
            }
            assert(vis =~= grid);
        }
        proof {
            if width as int * height as int >= 2 {
                crate::connectivity::lemma_spanning_origin_edge(
                    graph_edges(graph),
                    width as int,
                    height as int,
                );
            }
        }
        let goal = find_suitable_goal(&graph, width, height, start);
        let maze = Maze::new(width, height, start, goal, graph);
        Ok(maze)
    }
}

} // verus!
