//! Recursive-backtracking algorithm implementation
//!
//! Recursive backtracking is fast, easy to understand and straightforward.
//!
//! The algorithm works as follows:
//!
//! 1. Choose a starting point in the field (in this implementation the origin)
//!    and make it the current cell.
//! 2. Randomly choose a direction, check if the field in that direction has
//!    not yet been visited.  If that is the case, make the cell in that
//!    direction the new current cell and carve a passage between the two.
//! 3. If all adjacent fields have been visited, back up to the last field with
//!    unvisited neighbors.
//! 4. The algorithm terminates when it has backed up all the way to the
//!    starting point.
//!
//! The carving is driven by an explicit stack of cells, each with the random
//! direction order drawn when it was first reached; this preserves the
//! visitation order of the recursive formulation while keeping the stack depth
//! off the call stack.

use vstd::prelude::*;
use crate::connectivity::{adjacency_closed, cardinal_neighbors, carved_spanning, connected,
    edge_set_wf, grid_cells, lemma_connected_edge_into, lemma_connected_has_edge,
    lemma_connected_mono, lemma_connected_refl, lemma_connected_step, lemma_grid_cells_len,
    lemma_grid_closure, lemma_neighbor_is_step};
use crate::coordinates::{cell_step, Coordinates};
use crate::direction::Direction;
use crate::generator::{GenericGeneratorError, Generator};
use crate::graph::{graph_add_edge, graph_edges, graph_neighbors, graph_new, MazeGraph};
use crate::maze::{find_suitable_goal, Maze};
use crate::rng::MazeRng;

verus! {

/// One cell on the carving stack: the cell itself, the random direction order
/// drawn when it was reached, and how many of those directions were already
/// examined.
struct StackEntry {
    cell: Coordinates,
    order: [Direction; 4],
    idx: usize,
}

/// A stack entry examined so far: the cell is visited, the order holds all
/// four directions, and every direction already examined leads off the grid
/// or to a visited cell.
spec fn entry_ok(e: StackEntry, grid: Set<(int, int)>, visited: Set<(int, int)>) -> bool {
    &&& visited.contains(e.cell@)
    &&& e.idx <= 4
    &&& forall|d: Direction| #[trigger] e.order@.contains(d)
    &&& forall|j: int|
        0 <= j < e.idx ==> !grid.contains(cell_step(e.cell@, #[trigger] e.order@[j]))
            || visited.contains(cell_step(e.cell@, e.order@[j]))
}

/// [`Generator`] implementation which uses the recursive-backtracking
/// algorithm.
pub struct RbGenerator {
    rng: MazeRng,
}

impl RbGenerator {
    /// The generator's random source, as a mathematical value.
    pub closed spec fn spec_rng(self) -> MazeRng {
        self.rng
    }

    /// Create a new instance.
    ///
    /// Optionally a 32 byte seed can be provided to seed the internal random
    /// generator.  Giving a seed results in identical mazes being generated
    /// while omitting it sources the random generator from entropy.
    pub fn new(seed: Option<[u8; 32]>) -> (r: RbGenerator)
        ensures
            seed matches Some(s) ==> r.spec_rng().seed() == s@,
            r.spec_rng().drawn() == 0,
    {
        RbGenerator {
            rng: match seed {
                None => MazeRng::from_entropy(),
                Some(seed) => MazeRng::from_seed(seed),
            },
        }
    }

    /// Core algorithm implementation
    ///
    /// Carves passages in all directions in random order from the current
    /// coordinates but only if the field in that direction has not yet been
    /// processed, depth-first until every cell has been reached.
    #[verifier::rlimit(100)]
    fn carve_passages_from(
        &mut self,
        graph: &mut MazeGraph,
        width: i32,
        height: i32,
        start_coordinates: Coordinates,
    )
        requires
            1 <= width,
            1 <= height,
            start_coordinates@ == (0int, 0int),
            graph_edges(*old(graph)) == Set::<((int, int), (int, int))>::empty(),
        ensures
            carved_spanning(
                graph_edges(*final(graph)),
                width as int,
                height as int,
                start_coordinates@,
            ),
    {
        let ghost w = width as int;
        let ghost h = height as int;
        let ghost grid = grid_cells(w, h);
        let ghost start = start_coordinates@;
        let ghost mut visited: Set<(int, int)> = Set::empty().insert(start);

        let mut stack: Vec<StackEntry> = Vec::new();
        let order0 = Direction::gen_random_order(&mut self.rng);
        stack.push(StackEntry { cell: start_coordinates, order: order0, idx: 0 });

        proof {
            lemma_grid_cells_len(w, h);
            lemma_connected_refl(graph_edges(*graph), start);
            vstd::set_lib::lemma_len_subset(visited, grid);
            assert(stack@[0].cell@ == start);
        }

        while stack.len() > 0
            invariant
                1 <= w,
                1 <= h,
                w == width as int,
                h == height as int,
                start == start_coordinates@,
                grid == grid_cells(w, h),
                grid.finite(),
                grid.len() == w * h,
                grid.contains(start),
                edge_set_wf(graph_edges(*graph), w, h),
                graph_edges(*graph).finite(),
                forall|a: (int, int), b: (int, int)| #[trigger]
                    graph_edges(*graph).contains((a, b)) ==> visited.contains(a)
                        && visited.contains(b),
                forall|c: (int, int)| #[trigger]
                    visited.contains(c) ==> connected(graph_edges(*graph), start, c)
                        && grid.contains(c),
                visited.finite(),
                visited.contains(start),
                1 <= visited.len() <= w * h,
                graph_edges(*graph).len() == 2 * (visited.len() - 1),
                forall|k: int|
                    0 <= k < stack@.len() ==> entry_ok(#[trigger] stack@[k], grid, visited),
                forall|c: (int, int)| #[trigger]
                    visited.contains(c) ==> (exists|k: int|
                        0 <= k < stack@.len() && (#[trigger] stack@[k]).cell@ == c) || (
                    forall|d: Direction|
                        grid.contains(#[trigger] cell_step(c, d)) ==> visited.contains(
                            cell_step(c, d),
                        )),
            decreases w * h - visited.len(), stack@.len(), 4 - stack@.last().idx,
        {
            let ghost stack0 = stack@;
            let ghost visited0 = visited;
            let top = stack.len() - 1;
            let cell = stack[top].cell;
            let idx = stack[top].idx;
            proof {
                assert(entry_ok(stack0[top as int], grid, visited));
            }
            if idx >= 4 {
                // this cell has examined all four directions: it is exhausted
                // and leaves the stack for good
                let popped = stack.pop();
                proof {
                    assert forall|d: Direction|
                        grid.contains(#[trigger] cell_step(cell@, d)) implies visited.contains(
                        cell_step(cell@, d),
                    ) by {
                        let e = stack0[top as int];
                        assert(e.order@.contains(d));
                        let j = choose|j: int| 0 <= j < 4 && e.order@[j] == d;
                        assert(!grid.contains(cell_step(e.cell@, e.order@[j]))
                            || visited.contains(cell_step(e.cell@, e.order@[j])));
                    }
                    assert forall|c: (int, int)| #[trigger]
                        visited.contains(c) implies (exists|k: int|
                        0 <= k < stack@.len() && (#[trigger] stack@[k]).cell@ == c) || (
                    forall|d: Direction|
                        grid.contains(#[trigger] cell_step(c, d)) ==> visited.contains(
                            cell_step(c, d),
                        )) by {
                        if c != cell@ {
                            if exists|k: int|
                                0 <= k < stack0.len() && (#[trigger] stack0[k]).cell@ == c {
                                let k = choose|k: int|
                                    0 <= k < stack0.len() && (#[trigger] stack0[k]).cell@ == c;
                                assert(k != top as int);
                                assert(stack@[k].cell@ == c);
                            }
                        }
                    }
                }
            } else {
                let order = stack[top].order;
                let dir = order[idx];
                stack[top].idx = idx + 1;
                let ghost stack_mid = stack@;
                proof {
                    assert(visited.contains(cell@));
                    assert(grid.contains(cell@));
                    assert(0 <= cell@.0 < w && 0 <= cell@.1 < h);
                }
                let next = cell.next(&dir);
                proof {
                    assert(next@ == cell_step(cell@, order@[idx as int]));
                }
                let inside = next.x >= 0 && next.x < width && next.y >= 0 && next.y < height;
                if inside {
                    let nbrs = graph_neighbors(graph, next);
                    if nbrs.len() == 0 {
                        // untouched neighbor: carve a passage into it and make
                        // it the new current cell
                        proof {
                            assert(forall|x: (int, int)|
                                !graph_edges(*graph).contains((next@, x)));
                            if next@ == start && cell@ != start {
                                lemma_connected_has_edge(graph_edges(*graph), start, cell@);
                                assert(false);
                            }
                            if visited.contains(next@) && next@ != start {
                                lemma_connected_edge_into(graph_edges(*graph), start, next@);
                                let x = choose|x: (int, int)|
                                    graph_edges(*graph).contains((x, next@));
                                assert(graph_edges(*graph).contains((next@, x)));
                                assert(false);
                            }
                            assert(!visited.contains(next@));
                        }
                        let ghost es_old = graph_edges(*graph);
                        graph_add_edge(graph, cell, next);
                        proof {
                            let es = graph_edges(*graph);
                            assert(grid.contains(next@));
                            assert(cardinal_neighbors(cell@, next@));
                            assert(!es_old.contains((cell@, next@)));
                            assert(!es_old.insert((cell@, next@)).contains((next@, cell@)));
                            assert(es.len() == es_old.len() + 2);
                            assert forall|a: (int, int), b: (int, int)| #[trigger]
                                es.contains((a, b)) implies grid_cells(w, h).contains(a)
                                && grid_cells(w, h).contains(b) && cardinal_neighbors(a, b)
                                && es.contains((b, a)) by {
                                if !es_old.contains((a, b)) {
                                    assert((a, b) == (cell@, next@) || (a, b) == (next@, cell@));
                                }
                            }
                            assert forall|c: (int, int)| visited.contains(c) implies connected(
                                es,
                                start,
                                c,
                            ) by {
                                lemma_connected_mono(es_old, es, start, c);
                            }
                            lemma_connected_mono(es_old, es, start, cell@);
                            lemma_connected_step(es, start, cell@, next@);
                            visited = visited.insert(next@);
                            vstd::set_lib::lemma_len_subset(visited, grid);
                        }
                        let norder = Direction::gen_random_order(&mut self.rng);
                        stack.push(StackEntry { cell: next, order: norder, idx: 0 });
                    } else {
                        proof {
                            assert(graph_edges(*graph).contains((next@, nbrs@[0]@)));
                            assert(visited.contains(next@));
                        }
                    }
                } else {
                    proof {
                        assert(!grid.contains(next@));
                    }
                }
                proof {
                    // the direction just examined now leads off the grid or to
                    // a visited cell, and nothing below the top has moved
                    assert(visited0.subset_of(visited));
                    assert(!grid.contains(next@) || visited.contains(next@));
                    assert forall|k: int|
                        0 <= k < stack@.len() implies entry_ok(
                        #[trigger] stack@[k],
                        grid,
                        visited,
                    ) by {
                        if k < stack_mid.len() {
                            assert(stack@[k] == stack_mid[k]);
                            if k != top as int {
                                assert(stack_mid[k] == stack0[k]);
                                let e = stack0[k];
                                assert(entry_ok(e, grid, visited0));
                                assert forall|j: int| 0 <= j < e.idx implies !grid.contains(
                                    cell_step(e.cell@, #[trigger] e.order@[j]),
                                ) || visited.contains(cell_step(e.cell@, e.order@[j])) by {
                                    assert(!grid.contains(cell_step(e.cell@, e.order@[j]))
                                        || visited0.contains(cell_step(e.cell@, e.order@[j])));
                                }
                            } else {
                                let e = stack_mid[top as int];
                                let e0 = stack0[top as int];
                                assert(e.cell == cell && e.order == order && e.idx == idx + 1);
                                assert(e0.cell == cell && e0.order == order && e0.idx == idx);
                                assert forall|j: int| 0 <= j < e.idx implies !grid.contains(
                                    cell_step(e.cell@, #[trigger] e.order@[j]),
                                ) || visited.contains(cell_step(e.cell@, e.order@[j])) by {
                                    if j < idx {
                                        assert(!grid.contains(cell_step(e0.cell@, e0.order@[j]))
                                            || visited0.contains(
                                            cell_step(e0.cell@, e0.order@[j]),
                                        ));
                                    } else {
                                        assert(cell_step(e.cell@, e.order@[j]) == next@);
                                    }
                                }
                            }
                        } else {
                            assert(stack@[k].idx == 0);
                            assert(visited.contains(stack@[k].cell@));
                        }
                    }
                    assert forall|c: (int, int)| #[trigger]
                        visited.contains(c) implies (exists|k: int|
                        0 <= k < stack@.len() && (#[trigger] stack@[k]).cell@ == c) || (
                    forall|d: Direction|
                        grid.contains(#[trigger] cell_step(c, d)) ==> visited.contains(
                            cell_step(c, d),
                        )) by {
                        if visited0.contains(c) {
                            if exists|k: int|
                                0 <= k < stack0.len() && (#[trigger] stack0[k]).cell@ == c {
                                let k = choose|k: int|
                                    0 <= k < stack0.len() && (#[trigger] stack0[k]).cell@ == c;
                                assert(stack@[k].cell@ == c);
                            } else {
                                assert forall|d: Direction|
                                    grid.contains(#[trigger] cell_step(c, d)) implies visited.contains(
                                    cell_step(c, d),
                                ) by {
                                    assert(visited0.contains(cell_step(c, d)));
                                }
                            }
                        } else {
                            assert(c == next@);
                            assert(stack@[stack@.len() - 1].cell@ == c);
                        }
                    }
                }
            }
        }
        proof {
            // the stack is empty, so every visited cell has all in-bounds
            // neighbors visited; the visited region is therefore the whole
            // grid and the edge count is that of its spanning tree
            assert(adjacency_closed(visited, w, h)) by {
                assert forall|a: (int, int), b: (int, int)|
                    visited.contains(a) && grid.contains(b) && #[trigger] cardinal_neighbors(
                        a,
                        b,
                    ) implies visited.contains(b) by {
                    lemma_neighbor_is_step(a, b);
                    let d = choose|d: Direction| cell_step(a, d) == b;
                    assert(grid.contains(cell_step(a, d)));
                }
            }
            assert forall|c: (int, int)| grid.contains(c) implies visited.contains(c) by {
                lemma_grid_closure(visited, w, h, c);
            }
            assert(visited =~= grid);
        }
    }
}

impl Generator for RbGenerator {
    /// Carve depth-first from the origin and pick the goal by breadth-first
    /// search; the result is a spanning tree of the whole grid.
    fn generate(&mut self, width: i32, height: i32) -> (r: Result<Maze, GenericGeneratorError>)
        ensures
            r matches Ok(m) ==> carved_spanning(
                m.edges(),
                width as int,
                height as int,
                m.spec_start(),
            ),
            r matches Ok(m) ==> (width as int * height as int >= 2 ==> m.spec_goal()
                != m.spec_start()),
    {
        if width < 1 || height < 1 {
            return Err(GenericGeneratorError::InvalidDimensions(width, height));
        }
        let start = Coordinates::new(0, 0);
        let mut graph = graph_new();
        self.carve_passages_from(&mut graph, width, height, start);
        proof {
            if width as int * height as int >= 2 {
                crate::connectivity::lemma_spanning_origin_edge(
                    graph_edges(graph),
                    width as int,
                    height as int,
                );
            }
        }
        let goal = find_suitable_goal(&graph, width, height, start);
        let maze = Maze::new(width, height, start, goal, graph);
        Ok(maze)
    }
}

} // verus!
