//! Growing tree implementation
//!
//! 1. Let C be a list of cells, initially empty.  Add the start cell to C.
//! 2. Choose a cell from C and carve a passage to an unvisited neighbor of
//!    that cell, adding that neighbor to C as well.  If there are no unvisited
//!    neighbors, remove the cell from C and choose a new current cell from C
//!    according to the configured selection method.
//! 3. Repeat step 2 until C is empty.
//!
//! The fun lies in how the next cell is chosen from C: always choosing the
//! most recently added cell explores depth-first like the recursive
//! backtracker, while choosing at random behaves like a randomized growth
//! front.  The goal is the cell reached when the candidate list was at its
//! longest, a cheap stand-in for a cell far from the start.
//!
//! Random selection never discards a candidate, so it provably spans the whole
//! grid.  First and most-recent selection remove the chosen cell from the list
//! even when it still has unvisited neighbors, so for them only the weaker
//! guarantee is stated: the carved edges always form a tree over the visited
//! region, which holds the start and the goal.

use vstd::prelude::*;
use crate::connectivity::{adjacency_closed, cardinal_neighbors, carved_spanning, connected,
    edge_set_wf, grid_cells, lemma_connected_mono, lemma_connected_refl, lemma_connected_step,
    lemma_grid_cells_len, lemma_grid_closure, lemma_neighbor_is_step, tree_on_region};
use crate::coordinates::{cell_step, views_of, Coordinates};
use crate::direction::Direction;
use crate::generator::{GenericGeneratorError, Generator};
use crate::graph::{graph_add_edge, graph_edges, graph_new, MazeGraph};
use crate::maze::{coords_contain, Maze};
use crate::rng::MazeRng;

verus! {

/// Different ways in which the next current cell is selected from the list of
/// candidate cells.
#[derive(Debug, Clone, Copy, PartialEq, Eq, Structural)]
pub enum GrowingTreeSelectionMethod {
    /// A random cell, giving growth similar to Prim's algorithm.
    Random,
    /// The cell most recently added to the list, giving the depth-first
    /// exploration of the recursive backtracker.
    MostRecent,
    /// The first cell of the list.
    First,
}

/// [`Generator`] implementation which grows the maze from a list of candidate
/// cells.
pub struct GrowingTreeGenerator {
    rng: MazeRng,
    /// The method by which the next candidate cell is selected
    pub selection_method: GrowingTreeSelectionMethod,
}

/// Locate a coordinate in a list.
fn coords_position(v: &Vec<Coordinates>, c: &Coordinates) -> (r: Option<usize>)
    ensures
        r matches Some(i) ==> i < v@.len() && v@[i as int]@ == c@,
        r is None ==> !views_of(v@).contains(c@),
{
    let mut i: usize = 0;
    while i < v.len()
        invariant
            i <= v@.len(),
            forall|j: int| 0 <= j < i ==> views_of(v@)[j] != c@,
        decreases v@.len() - i,
    {
        if v[i] == *c {
            assert(views_of(v@)[i as int] == c@);
            return Some(i);
        }
        assert(views_of(v@)[i as int] != c@);
        i = i + 1;
    }
    assert(forall|j: int| 0 <= j < views_of(v@).len() ==> views_of(v@)[j] != c@);
    None
}

/// Removing one coordinate from a list without duplicate positions leaves a
/// list without duplicate positions.
proof fn lemma_views_remove_no_dup(s: Seq<Coordinates>, i: int)
    requires
        0 <= i < s.len(),
        views_of(s).no_duplicates(),
    ensures
        views_of(s.remove(i)) == views_of(s).remove(i),
        views_of(s.remove(i)).no_duplicates(),
{
    assert(views_of(s.remove(i)) =~= views_of(s).remove(i));
    let v = views_of(s);
    assert forall|p: int, q: int|
        0 <= p < q < v.remove(i).len() implies v.remove(i)[p] != v.remove(i)[q] by {
        let p0: int = if p < i {
            p
        } else {
            p + 1
        };
        let q0: int = if q < i {
            q
        } else {
            q + 1
        };
        assert(v.remove(i)[p] == v[p0] && v.remove(i)[q] == v[q0]);
    }
}

impl GrowingTreeGenerator {
    /// The configured selection method, as a mathematical value.
    pub closed spec fn spec_selection_method(self) -> GrowingTreeSelectionMethod {
        self.selection_method
    }

    /// The generator's random source, as a mathematical value.
    pub closed spec fn spec_rng(self) -> MazeRng {
        self.rng
    }

    /// Create a new instance.
    ///
    /// Optionally a 32 byte seed can be provided to seed the internal random
    /// generator.  Giving a seed results in identical mazes being generated
    /// while omitting it sources the random generator from entropy.
    pub fn new(seed: Option<[u8; 32]>) -> (r: GrowingTreeGenerator)
        ensures
            seed matches Some(s) ==> r.spec_rng().seed() == s@,
            r.spec_rng().drawn() == 0,
            r.spec_selection_method() is First,
    {
        GrowingTreeGenerator {
            rng: match seed {
                None => MazeRng::from_entropy(),
                Some(seed) => MazeRng::from_seed(seed),
            },
            selection_method: GrowingTreeSelectionMethod::First,
        }
    }

    /// Find the in-bounds neighbours of this cell that have NOT been visited.
    fn find_unvisited_neighbours(
        visited: &Vec<Coordinates>,
        width: i32,
        height: i32,
        c: Coordinates,
    ) -> (r: Vec<Coordinates>)
        requires
            1 <= width,
            1 <= height,
            grid_cells(width as int, height as int).contains(c@),
        ensures
            forall|i: int|
                0 <= i < r@.len() ==> grid_cells(width as int, height as int).contains(
                    (#[trigger] r@[i])@,
                ) && !views_of(visited@).contains(r@[i]@) && cardinal_neighbors(c@, r@[i]@),
            forall|d: Direction|
                grid_cells(width as int, height as int).contains(#[trigger] cell_step(c@, d))
                    && !views_of(visited@).contains(cell_step(c@, d)) ==> views_of(r@).contains(
                    cell_step(c@, d),
                ),
    {
        let mut r: Vec<Coordinates> = Vec::new();
        let dirs = Direction::all();
        let mut k: usize = 0;
        while k < 4
            invariant
                1 <= width,
                1 <= height,
                grid_cells(width as int, height as int).contains(c@),
                k <= 4,
                dirs@ == Direction::all_directions(),
                forall|i: int|
                    0 <= i < r@.len() ==> grid_cells(width as int, height as int).contains(
                        (#[trigger] r@[i])@,
                    ) && !views_of(visited@).contains(r@[i]@) && cardinal_neighbors(c@, r@[i]@),
                forall|j: int|
                    0 <= j < k ==> {
                        let b = cell_step(c@, #[trigger] dirs@[j]);
                        grid_cells(width as int, height as int).contains(b) && !views_of(
                            visited@,
                        ).contains(b) ==> views_of(r@).contains(b)
                    },
            decreases 4 - k,
        {
            let d = dirs[k];
            let n = c.next(&d);
            let ghost r0 = r@;
            if n.x >= 0 && n.x < width && n.y >= 0 && n.y < height {
                if !coords_contain(visited, &n) {
                    r.push(n);
                }
            }
            proof {
                broadcast use vstd::seq_lib::group_seq_properties;

                if r@.len() > r0.len() {
                    assert(views_of(r@) =~= views_of(r0).push(n@));
                } else {
                    assert(views_of(r@) =~= views_of(r0));
                }
                assert forall|j: int|
                    0 <= j < k + 1 implies {
                    let b = cell_step(c@, #[trigger] dirs@[j]);
                    grid_cells(width as int, height as int).contains(b) && !views_of(
                        visited@,
                    ).contains(b) ==> views_of(r@).contains(b)
                } by {
                    let b = cell_step(c@, dirs@[j]);
                    if grid_cells(width as int, height as int).contains(b) && !views_of(
                        visited@,
                    ).contains(b) {
                        if j < k {
                            let i = choose|i: int|
                                0 <= i < views_of(r0).len() && views_of(r0)[i] == b;
                            assert(views_of(r@)[i] == b);
                        } else {
                            assert(b == n@);
                        }
                    }
                }
            }
            k = k + 1;
        }
        proof {
            assert forall|d: Direction|
                grid_cells(width as int, height as int).contains(#[trigger] cell_step(c@, d))
                    && !views_of(visited@).contains(cell_step(c@, d)) implies views_of(
                r@,
            ).contains(cell_step(c@, d)) by {
                assert(Direction::all_directions().contains(d));
                let j = choose|j: int|
                    0 <= j < Direction::all_directions().len() && Direction::all_directions()[j]
                        == d;
                assert(dirs@[j] == d);
            }
        }
        r
    }

    /// Core algorithm implementation
    ///
    /// Grows the maze from the start cell, selecting new current cells per the
    /// configured selection method, and returns the coordinates of the goal
    /// field: the cell reached when the candidate list was longest.
    #[verifier::rlimit(100)]
    fn carve_passages_from(
        &mut self,
        graph: &mut MazeGraph,
        width: i32,
        height: i32,
        start_coordinates: Coordinates,
    ) -> (goal: Coordinates)
        requires
            1 <= width,
            1 <= height,
            start_coordinates@ == (0int, 0int),
            grid_cells(width as int, height as int).contains(start_coordinates@),
            graph_edges(*old(graph)) == Set::<((int, int), (int, int))>::empty(),
        ensures
            edge_set_wf(graph_edges(*final(graph)), width as int, height as int),
            grid_cells(width as int, height as int).contains(goal@),
            connected(graph_edges(*final(graph)), start_coordinates@, goal@),
            exists|region: Set<(int, int)>| #[trigger] tree_on_region(
                graph_edges(*final(graph)),
                width as int,
                height as int,
                start_coordinates@,
                region,
            ) && region.contains(goal@),
            width as int * height as int >= 2 ==> goal@ != start_coordinates@,
            old(self).selection_method is Random ==> carved_spanning(
                graph_edges(*final(graph)),
                width as int,
                height as int,
                start_coordinates@,
            ),
    {
        let ghost w = width as int;
        let ghost h = height as int;
        let ghost grid = grid_cells(w, h);
        let ghost start = start_coordinates@;
        let ghost mut vis: Set<(int, int)> = Set::empty().insert(start);

        let mut cell_stack: Vec<Coordinates> = Vec::new();
        let mut visited: Vec<Coordinates> = Vec::new();
        let mut current_coordinates = start_coordinates;
        let mut goal_coordinates = start_coordinates;
        let mut max_q: usize = 1;

        let ghost sm = self.selection_method;
        cell_stack.push(current_coordinates);
        visited.push(current_coordinates);
        proof {
            lemma_grid_cells_len(w, h);
            lemma_connected_refl(graph_edges(*graph), start);
            vstd::set_lib::lemma_len_subset(vis, grid);
            assert(views_of(visited@) =~= seq![start]);
            assert(views_of(cell_stack@) =~= seq![start]);
            assert(views_of(cell_stack@)[0] == start);
        }

        while cell_stack.len() > 0
            invariant
                1 <= w,
                1 <= h,
                w == width as int,
                h == height as int,
                grid == grid_cells(w, h),
                grid.finite(),
                grid.len() == w * h,
                start == start_coordinates@,
                start == (0int, 0int),
                grid.contains(start),
                edge_set_wf(graph_edges(*graph), w, h),
                graph_edges(*graph).finite(),
                forall|a: (int, int), b: (int, int)| #[trigger]
                    graph_edges(*graph).contains((a, b)) ==> vis.contains(a) && vis.contains(b),
                forall|c: (int, int)| #[trigger]
                    vis.contains(c) ==> connected(graph_edges(*graph), start, c) && grid.contains(
                        c,
                    ),
                vis.finite(),
                vis.contains(start),
                1 <= vis.len() <= w * h,
                graph_edges(*graph).len() == 2 * (vis.len() - 1),
                forall|b: (int, int)| views_of(visited@).contains(b) <==> vis.contains(b),
                views_of(cell_stack@).no_duplicates(),
                forall|i: int|
                    0 <= i < cell_stack@.len() ==> vis.contains((#[trigger] cell_stack@[i])@),
                vis.contains(current_coordinates@),
                vis.contains(goal_coordinates@),
                vis.len() == 1 ==> max_q == 1,
                vis.len() >= 2 ==> goal_coordinates@ != start,
                w * h >= 2 && vis.len() == 1 ==> cell_stack@.len() >= 1,
                self.selection_method == sm,
                sm is Random ==> forall|c: (int, int)| #[trigger]
                    vis.contains(c) ==> views_of(cell_stack@).contains(c) || (forall|d: Direction|
                        grid.contains(#[trigger] cell_step(c, d)) ==> vis.contains(
                            cell_step(c, d),
                        )),
            decreases
                w * h - vis.len(),
                cell_stack@.len(),
                (if views_of(cell_stack@).contains(current_coordinates@) {
                    0int
                } else {
                    1int
                }),
        {
            let ghost mut old_vis = vis;
            let neighbours = Self::find_unvisited_neighbours(
                &visited,
                width,
                height,
                current_coordinates,
            );
            if neighbours.len() == 0 {
                proof {
                    // on a grid of two or more cells the origin cannot dead-end
                    // while it is the only visited cell: an unvisited in-bounds
                    // neighbor would have been collected
                    if vis.len() == 1 && w * h >= 2 {
                        broadcast use vstd::set::group_set_axioms;

                        assert forall|c: (int, int)| vis.contains(c) implies c == start by {
                            if c != start {
                                assert(vis.remove(start).contains(c));
                                assert(vis.remove(start).len() == 0);
                                vstd::set_lib::lemma_set_empty_equivalency_len(vis.remove(start));
                            }
                        }
                        assert(current_coordinates@ == start);
                        if w >= 2 {
                            let b = cell_step(start, Direction::East);
                            assert(grid.contains(b) && b != start);
                            assert(!vis.contains(b));
                            assert(!views_of(visited@).contains(b));
                            assert(views_of(neighbours@).contains(b));
                        } else {
                            assert(h >= 2) by (nonlinear_arith)
                                requires
                                    1 <= w < 2,
                                    1 <= h,
                                    w * h >= 2,
                            ;
                            let b = cell_step(start, Direction::South);
                            assert(grid.contains(b) && b != start);
                            assert(!vis.contains(b));
                            assert(!views_of(visited@).contains(b));
                            assert(views_of(neighbours@).contains(b));
                        }
                        assert(false);
                    }
                }
                // dead end: drop the current cell from the candidate list and
                // select a new current cell per the selection method
                let pos = coords_position(&cell_stack, &current_coordinates);
                let ghost stack0 = cell_stack@;
                let ghost cur0 = current_coordinates@;
                proof {
                    // the current cell has no unvisited in-bounds neighbor
                    assert forall|d: Direction|
                        grid.contains(#[trigger] cell_step(cur0, d)) implies vis.contains(
                        cell_step(cur0, d),
                    ) by {
                        if !vis.contains(cell_step(cur0, d)) {
                            assert(!views_of(visited@).contains(cell_step(cur0, d)));
                            assert(views_of(neighbours@).contains(cell_step(cur0, d)));
                        }
                    }
                }
                match pos {
                    Some(p) => {
                        cell_stack.remove(p);
                        proof {
                            lemma_views_remove_no_dup(stack0, p as int);
                        }
                    },
                    None => {},
                }
                let ghost stack1 = cell_stack@;
                if cell_stack.len() > 0 {
                    match self.selection_method {
                        GrowingTreeSelectionMethod::MostRecent => {
                            let popped = cell_stack.pop();
                            current_coordinates = popped.unwrap();
                            proof {
                                lemma_views_remove_no_dup(stack1, stack1.len() - 1);
                                assert(cell_stack@ =~= stack1.remove(stack1.len() - 1));
                            }
                        },
                        GrowingTreeSelectionMethod::Random => {
                            let i = self.rng.below(cell_stack.len());
                            current_coordinates = cell_stack[i];
                            proof {
                                assert(views_of(cell_stack@)[i as int]
                                    == current_coordinates@);
                            }
                        },
                        GrowingTreeSelectionMethod::First => {
                            current_coordinates = cell_stack.remove(0);
                            proof {
                                lemma_views_remove_no_dup(stack1, 0);
                            }
                        },
                    }
                    proof {
                        if pos is None {
                            assert(!views_of(stack0).contains(cur0));
                            assert(cell_stack@.len() == stack0.len()
                                || cell_stack@.len() < stack0.len());
                        }
                    }
                }
                proof {
                    if sm is Random {
                        // the dropped cell is exhausted and every other cell
                        // keeps its place on the candidate list
                        assert(cell_stack@ == stack1);
                        assert forall|c: (int, int)| #[trigger]
                            vis.contains(c) implies views_of(cell_stack@).contains(c) || (
                        forall|d: Direction|
                            grid.contains(#[trigger] cell_step(c, d)) ==> vis.contains(
                                cell_step(c, d),
                            )) by {
                            if c != cur0 && views_of(stack0).contains(c) {
                                let k = choose|k: int|
                                    0 <= k < views_of(stack0).len() && views_of(stack0)[k] == c;
                                match pos {
                                    Some(p) => {
                                        assert(views_of(stack0)[p as int] == cur0);
                                        assert(k != p as int);
                                        let k1: int = if k < p as int {
                                            k
                                        } else {
                                            k - 1
                                        };
                                        assert(views_of(stack1)[k1] == c);
                                    },
                                    None => {},
                                }
                            }
                        }
                    }
                }
            } else {
                // carve a passage to a random unvisited neighbour and move on
                let ni = self.rng.below(neighbours.len());
                let next = neighbours[ni];
                proof {
                    assert((neighbours@[ni as int])@ == next@);
                    assert(grid.contains(next@) && !views_of(visited@).contains(next@));
                    assert(!vis.contains(next@));
                }
                let ghost es_old = graph_edges(*graph);
                graph_add_edge(graph, current_coordinates, next);
                proof {
                    let es = graph_edges(*graph);
                    assert(!es_old.contains((current_coordinates@, next@)));
                    assert(!es_old.insert((current_coordinates@, next@)).contains(
                        (next@, current_coordinates@),
                    ));
                    assert(es.len() == es_old.len() + 2);
                    assert forall|a: (int, int), b: (int, int)| #[trigger]
                        es.contains((a, b)) implies grid.contains(a) && grid.contains(b)
                        && cardinal_neighbors(a, b) && es.contains((b, a)) by {
                        if !es_old.contains((a, b)) {
                            assert((a, b) == (current_coordinates@, next@) || (a, b) == (
                            next@,
                            current_coordinates@,
                            ));
                        }
                    }
                    assert forall|c: (int, int)| vis.contains(c) implies connected(
                        es,
                        start,
                        c,
                    ) by {
                        lemma_connected_mono(es_old, es, start, c);
                    }
                    lemma_connected_mono(es_old, es, start, current_coordinates@);
                    lemma_connected_step(es, start, current_coordinates@, next@);
                    old_vis = vis;
                    vis = vis.insert(next@);
                    vstd::set_lib::lemma_len_subset(vis, grid);
                }
                let ghost visited0 = visited@;
                let ghost stack0 = cell_stack@;
                cell_stack.push(next);
                visited.push(next);
                current_coordinates = next;
                proof {
                    broadcast use vstd::seq_lib::group_seq_properties;

                    assert(views_of(cell_stack@) =~= views_of(stack0).push(next@));
                    // the fresh cell was not a candidate yet
                    assert(!views_of(stack0).contains(next@)) by {
                        if views_of(stack0).contains(next@) {
                            let k = choose|k: int|
                                0 <= k < views_of(stack0).len() && views_of(stack0)[k] == next@;
                            assert(vis.contains(stack0[k]@));
                        }
                    }
                    assert(views_of(visited@) =~= views_of(visited0).push(next@));
                    assert forall|b: (int, int)|
                        views_of(visited@).contains(b) <==> vis.contains(b) by {
                        if views_of(visited@).contains(b) {
                            let k = choose|k: int|
                                0 <= k < views_of(visited@).len() && views_of(visited@)[k] == b;
                            if k < visited0.len() {
                                assert(views_of(visited0)[k] == b);
                            }
                        }
                        if vis.contains(b) && b != next@ {
                            let k = choose|k: int|
                                0 <= k < views_of(visited0).len() && views_of(visited0)[k] == b;
                            assert(views_of(visited@)[k] == b);
                        }
                        if b == next@ {
                            assert(views_of(visited@)[visited0.len() as int] == next@);
                        }
                    }
                    if sm is Random {
                        assert forall|c: (int, int)| #[trigger]
                            vis.contains(c) implies views_of(cell_stack@).contains(c) || (
                        forall|d: Direction|
                            grid.contains(#[trigger] cell_step(c, d)) ==> vis.contains(
                                cell_step(c, d),
                            )) by {
                            if c == next@ {
                                assert(views_of(cell_stack@).last() == next@);
                            } else if views_of(stack0).contains(c) {
                                let k = choose|k: int|
                                    0 <= k < views_of(stack0).len() && views_of(stack0)[k] == c;
                                assert(views_of(cell_stack@)[k] == c);
                            } else {
                                assert(old_vis.contains(c));
                                assert forall|d: Direction|
                                    grid.contains(#[trigger] cell_step(c, d)) implies vis.contains(
                                    cell_step(c, d),
                                ) by {
                                    assert(old_vis.contains(cell_step(c, d)));
                                }
                            }
                        }
                    }
                }
                // remember the cell reached when the candidate list was
                // longest: it becomes the goal
                if cell_stack.len() > max_q {
                    max_q = cell_stack.len();
                    goal_coordinates = current_coordinates;
                }
            }
        }
        proof {
            // the visited region always carries a spanning tree of itself,
            // whatever the selection method
            assert(vis.subset_of(grid)) by {
                assert forall|c: (int, int)| vis.contains(c) implies grid.contains(c) by {}
            }
            assert(tree_on_region(graph_edges(*graph), w, h, start, vis));
            assert(vis.contains(goal_coordinates@));
            if w * h >= 2 {
                if vis.len() == 1 {
                    assert(cell_stack@.len() >= 1);
                    assert(false);
                }
                assert(goal_coordinates@ != start);
            }
            if sm is Random {
                // the candidate list is empty, so every visited cell has all
                // in-bounds neighbors visited: the visited region is the whole
                // grid and the edges form its spanning tree
                assert(adjacency_closed(vis, w, h)) by {
                    assert forall|a: (int, int), b: (int, int)|
                        vis.contains(a) && grid.contains(b) && #[trigger] cardinal_neighbors(
                            a,
                            b,
                        ) implies vis.contains(b) by {
                        lemma_neighbor_is_step(a, b);
                        let d = choose|d: Direction| cell_step(a, d) == b;
                        assert(grid.contains(cell_step(a, d)));
                        assert(!views_of(cell_stack@).contains(a));
                    }
                }
                assert forall|c: (int, int)| grid.contains(c) implies vis.contains(c) by {
                    lemma_grid_closure(vis, w, h, c);
                }
                assert(vis =~= grid);
            }
        }
        goal_coordinates
    }
}

impl Generator for GrowingTreeGenerator {
    /// Grow from the origin per the configured selection method; the goal is
    /// the cell reached when the candidate list was longest.  Random selection
    /// keeps every candidate until it is exhausted, so it spans the whole
    /// grid.
    fn generate(&mut self, width: i32, height: i32) -> (r: Result<Maze, GenericGeneratorError>)
        ensures
            r matches Ok(m) ==> exists|region: Set<(int, int)>| #[trigger] tree_on_region(
                m.edges(),
                width as int,
                height as int,
                m.spec_start(),
                region,
            ) && region.contains(m.spec_goal()),
            r matches Ok(m) ==> (width as int * height as int >= 2 ==> m.spec_goal()
                != m.spec_start()),
            old(self).spec_selection_method() is Random ==> (r matches Ok(m) ==> carved_spanning(
                m.edges(),
                width as int,
                height as int,
                m.spec_start(),
            )),
    {
        if width < 1 || height < 1 {
            return Err(GenericGeneratorError::InvalidDimensions(width, height));
        }
        let start = Coordinates::new(0, 0);
        let mut graph = graph_new();
        let goal = self.carve_passages_from(&mut graph, width, height, start);
        let maze = Maze::new(width, height, start, goal, graph);
        proof {
            let region = choose|region: Set<(int, int)>| #[trigger] tree_on_region(
                graph_edges(graph),
                width as int,
                height as int,
                start@,
                region,
            ) && region.contains(goal@);
            assert(tree_on_region(
                maze.edges(),
                width as int,
                height as int,
                maze.spec_start(),
                region,
            ) && region.contains(maze.spec_goal()));
        }
        Ok(maze)
    }
}

} // verus!
