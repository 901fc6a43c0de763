use vstd::prelude::*;
use crate::connectivity::{cardinal_neighbors, connected, edge_set_wf, grid_cells, lemma_connected_refl, lemma_connected_step};
use crate::coordinates::{cell_step, views_of, Coordinates};
use crate::direction::Direction;
use crate::field::{Field, FieldType};
use crate::graph::{graph_edges, graph_has_edge, graph_isomorphic, graph_neighbors, graphs_isomorphic, MazeGraph};

verus! {

/// A collection of [`Field`]s with passages between them.
///
/// Use one of the provided generators to create an instance of this type; it
/// is immutable afterwards and only answers read queries.
pub struct Maze {
    pub(crate) graph: MazeGraph,
    /// At which coordinates the start field lies
    pub start: Coordinates,
    /// At which coordinates the goal field lies
    pub goal: Coordinates,
    /// How large the maze is in (width, height) format
    pub size: (i32, i32),
}

impl Maze {
    /// The passages of this maze, as a symmetric set of cell pairs.
    pub closed spec fn edges(self) -> Set<((int, int), (int, int))> {
        graph_edges(self.graph)
    }

    /// The width of this maze, as a mathematical value.
    pub closed spec fn spec_width(self) -> int {
        self.size.0 as int
    }

    /// The height of this maze, as a mathematical value.
    pub closed spec fn spec_height(self) -> int {
        self.size.1 as int
    }

    /// The start cell, as a mathematical value.
    pub closed spec fn spec_start(self) -> (int, int) {
        self.start@
    }

    /// The goal cell, as a mathematical value.
    pub closed spec fn spec_goal(self) -> (int, int) {
        self.goal@
    }

    /// Whether a cell lies within this maze.
    pub open spec fn in_bounds(self, c: (int, int)) -> bool {
        grid_cells(self.spec_width(), self.spec_height()).contains(c)
    }

    /// Whether the two graphs of the mazes are isomorphic.
    pub closed spec fn isomorphic_to(self, other: Maze) -> bool {
        graphs_isomorphic(self.graph, other.graph)
    }

    /// A well-formed maze: positive dimensions, start and goal within bounds,
    /// and every passage symmetric between two in-bounds cardinal neighbors.
    pub open spec fn wf(self) -> bool {
        &&& 1 <= self.spec_width()
        &&& 1 <= self.spec_height()
        &&& self.in_bounds(self.spec_start())
        &&& self.in_bounds(self.spec_goal())
        &&& edge_set_wf(self.edges(), self.spec_width(), self.spec_height())
    }

    /// The role the given cell plays in this maze.
    pub open spec fn spec_field_type_at(self, c: (int, int)) -> FieldType {
        if self.spec_start() == c {
            FieldType::Start
        } else if self.spec_goal() == c {
            FieldType::Goal
        } else {
            FieldType::Normal
        }
    }

    /// Whether this maze has a passage from cell `c` toward direction `d`.
    pub open spec fn spec_has_passage(self, c: (int, int), d: Direction) -> bool {
        self.edges().contains((c, cell_step(c, d)))
    }

    pub(crate) fn new(
        width: i32,
        height: i32,
        start: Coordinates,
        goal: Coordinates,
        graph: MazeGraph,
    ) -> (r: Maze)
        requires
            1 <= width,
            1 <= height,
            grid_cells(width as int, height as int).contains(start@),
            grid_cells(width as int, height as int).contains(goal@),
            edge_set_wf(graph_edges(graph), width as int, height as int),
        ensures
            r.wf(),
            r.spec_width() == width,
            r.spec_height() == height,
            r.spec_start() == start@,
            r.spec_goal() == goal@,
            r.edges() == graph_edges(graph),
    {
        Maze { graph, start, goal, size: (width, height) }
    }

    /// How large this maze is, in (width, height) format; ties the public
    /// field to the mathematical dimensions.
    pub fn get_size(&self) -> (r: (i32, i32))
        ensures
            r.0 == self.spec_width(),
            r.1 == self.spec_height(),
    {
        self.size
    }

    /// Where the starting point is.
    pub fn get_start(&self) -> (r: Coordinates)
        ensures
            r@ == self.spec_start(),
    {
        self.start
    }

    /// Where the goal point is.
    pub fn get_goal(&self) -> (r: Coordinates)
        ensures
            r@ == self.spec_goal(),
    {
        self.goal
    }

    pub(crate) fn are_coordinates_inside(&self, coordinates: &Coordinates) -> (r: bool)
        ensures
            r == self.in_bounds(coordinates@),
    {
        coordinates.x >= 0 && coordinates.x < self.size.0 && coordinates.y >= 0 && coordinates.y
            < self.size.1
    }

    /// Retrieve the [`Field`] which is located at `coordinates`.
    ///
    /// The result is present exactly when the coordinates lie within the maze;
    /// the field then reports this maze's passages at that cell and the role
    /// the cell plays.
    pub fn get_field(&self, coordinates: &Coordinates) -> (r: Option<Field>)
        ensures
            r is Some <==> self.in_bounds(coordinates@),
            r matches Some(f) ==> {
                &&& f.spec_coordinates() == *coordinates
                &&& f.spec_field_type() == self.spec_field_type_at(coordinates@)
                &&& forall|d: Direction|
                    #[trigger] f.spec_has_passage(d) <==> self.spec_has_passage(coordinates@, d)
            },
    {
        if self.are_coordinates_inside(coordinates) {
            let mut passages: Vec<Direction> = Vec::new();
            if graph_has_edge(&self.graph, *coordinates, coordinates.next(&Direction::North)) {
                passages.push(Direction::North);
            }
            if graph_has_edge(&self.graph, *coordinates, coordinates.next(&Direction::East)) {
                passages.push(Direction::East);
            }
            if graph_has_edge(&self.graph, *coordinates, coordinates.next(&Direction::South)) {
                passages.push(Direction::South);
            }
            if graph_has_edge(&self.graph, *coordinates, coordinates.next(&Direction::West)) {
                passages.push(Direction::West);
            }
            let field_type = if self.start == *coordinates {
                FieldType::Start
            } else if self.goal == *coordinates {
                FieldType::Goal
            } else {
                FieldType::Normal
            };
            let f = Field::new(field_type, *coordinates, passages);
            proof {
                broadcast use vstd::seq_lib::group_seq_properties;

                let c = coordinates@;
                assert forall|d: Direction|
                    #[trigger] f.spec_has_passage(d) <==> self.spec_has_passage(c, d) by {
                    match d {
                        Direction::North => {},
                        Direction::East => {},
                        Direction::South => {},
                        Direction::West => {},
                    }
                }
            }
            Some(f)
        } else {
            None
        }
    }
}

/// Linear membership test over a list of coordinates.
pub(crate) fn coords_contain(v: &Vec<Coordinates>, c: &Coordinates) -> (r: bool)
    ensures
        r == views_of(v@).contains(c@),
{
    let mut i: usize = 0;
    while i < v.len()
        invariant
            i <= v@.len(),
            forall|j: int| 0 <= j < i ==> views_of(v@)[j] != c@,
        decreases v@.len() - i,
    {
        if v[i] == *c {
            assert(views_of(v@)[i as int] == c@);
            return true;
        }
        assert(views_of(v@)[i as int] != c@);
        i = i + 1;
    }
    assert(forall|j: int| 0 <= j < views_of(v@).len() ==> views_of(v@)[j] != c@);
    false
}

/// Select a goal for a finished graph: walk the graph breadth-first from
/// `start` and return the last cell dequeued.  On a spanning tree this is a
/// cell farthest from the start in traversal order; in any case it is
/// connected to the start, and it is another cell whenever any passage leaves
/// the start.
pub(crate) fn find_suitable_goal(graph: &MazeGraph, width: i32, height: i32, start: Coordinates) -> (r:
    Coordinates)
    requires
        1 <= width,
        1 <= height,
        grid_cells(width as int, height as int).contains(start@),
        edge_set_wf(graph_edges(*graph), width as int, height as int),
    ensures
        connected(graph_edges(*graph), start@, r@),
        grid_cells(width as int, height as int).contains(r@),
        (exists|x: (int, int)| graph_edges(*graph).contains(((start@, x)))) ==> r@ != start@,
{
    let ghost es = graph_edges(*graph);
    let ghost w = width as int;
    let ghost h = height as int;
    let ghost grid = grid_cells(w, h);

    let mut order: Vec<Coordinates> = Vec::new();
    order.push(start);
    let mut head: usize = 0;
    let mut last = start;
    proof {
        lemma_connected_refl(es, start@);
        crate::connectivity::lemma_grid_cells_len(w, h);
        assert(views_of(order@) =~= seq![start@]);
    }
    while head < order.len()
        invariant
            head <= order@.len(),
            1 <= order@.len() <= w * h,
            1 <= w,
            1 <= h,
            es == graph_edges(*graph),
            grid == grid_cells(w, h),
            grid.finite(),
            grid.len() == w * h,
            edge_set_wf(es, w, h),
            views_of(order@).no_duplicates(),
            views_of(order@)[0] == start@,
            head >= 1 ==> last@ == views_of(order@)[head - 1],
            head >= 1 ==> forall|x: (int, int)|
                es.contains(((start@, x))) ==> views_of(order@).contains(x),
            forall|j: int| 0 <= j < order@.len() ==> grid.contains(#[trigger] views_of(order@)[j]),
            forall|j: int|
                0 <= j < order@.len() ==> connected(es, start@, #[trigger] views_of(order@)[j]),
            connected(es, start@, last@),
            grid.contains(last@),
        decreases w * h - order@.len(), order@.len() - head,
    {
        let current = order[head];
        assert(views_of(order@)[head as int] == current@);
        let ghost head0 = head;
        head = head + 1;
        last = current;
        let nbrs = graph_neighbors(graph, current);
        let ghost len0 = order@.len();
        let mut k: usize = 0;
        while k < nbrs.len()
            invariant
                k <= nbrs@.len(),
                head <= order@.len(),
                len0 <= order@.len(),
                1 <= order@.len() <= w * h,
                1 <= w,
                1 <= h,
                head == head0 + 1,
                1 <= head,
                es == graph_edges(*graph),
                grid == grid_cells(w, h),
                grid.finite(),
                grid.len() == w * h,
                edge_set_wf(es, w, h),
                connected(es, start@, current@),
                current@ == views_of(order@)[head0 as int],
                last@ == current@,
                forall|j: int|
                    0 <= j < nbrs@.len() ==> es.contains((current@, #[trigger] nbrs@[j]@)),
                forall|j: int| 0 <= j < k ==> views_of(order@).contains(#[trigger] nbrs@[j]@),
                views_of(order@).no_duplicates(),
                views_of(order@)[0] == start@,
                head0 >= 1 ==> forall|x: (int, int)|
                    es.contains(((start@, x))) ==> views_of(order@).contains(x),
                forall|j: int|
                    0 <= j < order@.len() ==> grid.contains(#[trigger] views_of(order@)[j]),
                forall|j: int|
                    0 <= j < order@.len() ==> connected(es, start@, #[trigger] views_of(order@)[j]),
            decreases nbrs@.len() - k,
        {
            let n = nbrs[k];
            let ghost order0 = order@;
            proof {
                assert(es.contains((current@, n@)));
            }
            if !coords_contain(&order, &n) {
                proof {
                    lemma_connected_step(es, start@, current@, n@);
                    assert(views_of(order@.push(n)) =~= views_of(order@).push(n@));
                    // a fresh in-bounds cell keeps the list duplicate-free and
                    // within the grid's cardinality
                    views_of(order@).push(n@).unique_seq_to_set();
                    assert(views_of(order@).push(n@).to_set().subset_of(grid)) by {
                        assert forall|c: (int, int)|
                            views_of(order@).push(n@).to_set().contains(c) implies grid.contains(
                            c,
                        ) by {
                            let j = choose|j: int|
                                0 <= j < views_of(order@).push(n@).len() && views_of(order@).push(
                                    n@,
                                )[j] == c;
                            if j < order@.len() {
                                assert(grid.contains(views_of(order@)[j]));
                            }
                        }
                    }
                    vstd::set_lib::lemma_len_subset(views_of(order@).push(n@).to_set(), grid);
                }
                order.push(n);
            }
            proof {
                // whether the neighbor was fresh or already queued, it is in
                // the list now, and everything queued before stays where it was
                assert(views_of(order@).contains(n@)) by {
                    if order@.len() > order0.len() {
                        assert(views_of(order@).last() == n@);
                    }
                }
                assert forall|x: (int, int)|
                    views_of(order0).contains(x) implies views_of(order@).contains(x) by {
                    let j = choose|j: int|
                        0 <= j < views_of(order0).len() && views_of(order0)[j] == x;
                    assert(views_of(order@)[j] == x);
                }
                assert forall|j: int|
                    0 <= j < k + 1 implies views_of(order@).contains(#[trigger] nbrs@[j]@) by {
                    if j < k {
                        assert(views_of(order0).contains(nbrs@[j]@));
                    }
                }
                if head0 >= 1 {
                    assert forall|x: (int, int)|
                        es.contains(((start@, x))) implies views_of(order@).contains(x) by {
                        assert(views_of(order0).contains(x));
                    }
                }
            }
            k = k + 1;
        }
        proof {
            // after the start's own turn, every neighbor of the start is in
            // the list: it is exactly the cells the graph pairs with it
            if head0 == 0 {
                assert(current@ == start@);
                assert forall|x: (int, int)|
                    es.contains(((start@, x))) implies views_of(order@).contains(x) by {
                    let i = choose|i: int| 0 <= i < nbrs@.len() && (#[trigger] nbrs@[i])@ == x;
                    assert(views_of(order@).contains(nbrs@[i]@));
                }
            }
        }
    }
    proof {
        // if any passage leaves the start, a second cell was queued, and the
        // last dequeued cell sits past the duplicate-free list's first slot
        if exists|x: (int, int)| es.contains(((start@, x))) {
            let x = choose|x: (int, int)| es.contains(((start@, x)));
            assert(views_of(order@).contains(x));
            assert(x != start@) by {
                assert(!cardinal_neighbors(start@, start@));
            }
            let j = choose|j: int| 0 <= j < views_of(order@).len() && views_of(order@)[j] == x;
            assert(j != 0);
            assert(order@.len() >= 2);
            assert(last@ == views_of(order@)[head - 1]);
            assert(head == order@.len());
            assert(last@ != start@) by {
                assert(views_of(order@)[0] == start@);
                assert(views_of(order@).no_duplicates());
            }
        }
    }
    last
}

/// Passages are symmetric: for every cell and direction in a well-formed
/// maze, the passage looks the same from both sides of the wall it crosses;
/// the cell has a passage toward its neighbor exactly when the neighbor has
/// one back toward the cell.
pub proof fn lemma_passage_symmetry(m: Maze, c: (int, int), d: Direction)
    requires
        m.wf(),
    ensures
        m.spec_has_passage(c, d) == m.spec_has_passage(
            cell_step(c, d),
            d.spec_opposite(),
        ),
{
    crate::coordinates::lemma_step_opposite(c, d);
    let b = cell_step(c, d);
    if m.edges().contains((c, b)) {
        assert(m.edges().contains((b, c)));
    }
    if m.edges().contains((b, cell_step(b, d.spec_opposite()))) {
        assert(m.edges().contains((b, c)));
        assert(m.edges().contains((c, b)));
    }
}

impl PartialEq for Maze {
    /// Two mazes are equal when start, goal and size match and their graphs
    /// are isomorphic; equivalent but differently grown structures compare
    /// equal on purpose.
    fn eq(&self, other: &Self) -> (r: bool) {
        self.start == other.start && self.goal == other.goal && self.size.0 == other.size.0
            && self.size.1 == other.size.1 && graph_isomorphic(&self.graph, &other.graph)
    }
}

impl Eq for Maze {

}

impl vstd::std_specs::cmp::PartialEqSpecImpl for Maze {
    open spec fn obeys_eq_spec() -> bool {
        true
    }

    open spec fn eq_spec(&self, other: &Self) -> bool {
        self.spec_start() == other.spec_start() && self.spec_goal() == other.spec_goal()
            && self.spec_width() == other.spec_width() && self.spec_height() == other.spec_height()
            && self.isomorphic_to(*other)
    }
}

impl Maze {
    /// The ceiling cells of text row `y`, up to column `x`: for each cell a
    /// corner glyph, then a gap where its northern passage is open and a wall
    /// glyph where it is closed.
    pub open spec fn spec_ceiling_cells(self, y: int, x: int) -> Seq<char>
        decreases x,
    {
        if x <= 0 {
            Seq::empty()
        } else {
            self.spec_ceiling_cells(y, x - 1) + seq![
                '\u{b7}',
                if self.spec_has_passage((x - 1, y), Direction::North) {
                    ' '
                } else {
                    '-'
                },
            ]
        }
    }

    /// The body cells of text row `y`, up to column `x`: for each cell a gap
    /// or wall glyph for its western passage, then the start or goal marker or
    /// a space.
    pub open spec fn spec_body_cells(self, y: int, x: int) -> Seq<char>
        decreases x,
    {
        if x <= 0 {
            Seq::empty()
        } else {
            self.spec_body_cells(y, x - 1) + seq![
                if self.spec_has_passage((x - 1, y), Direction::West) {
                    ' '
                } else {
                    '|'
                },
                if self.spec_start() == (x - 1, y) {
                    'S'
                } else if self.spec_goal() == (x - 1, y) {
                    'G'
                } else {
                    ' '
                },
            ]
        }
    }

    /// The closing all-wall line's cells, up to column `x`.
    pub open spec fn spec_bottom_cells(self, x: int) -> Seq<char>
        decreases x,
    {
        if x <= 0 {
            Seq::empty()
        } else {
            self.spec_bottom_cells(x - 1) + seq!['\u{b7}', '-']
        }
    }

    /// The first `y` text rows: each one a ceiling line and a body line.
    pub open spec fn spec_text_rows(self, y: int) -> Seq<char>
        decreases y,
    {
        if y <= 0 {
            Seq::empty()
        } else {
            self.spec_text_rows(y - 1) + self.spec_ceiling_cells(y - 1, self.spec_width()) + seq![
                '\u{b7}',
                '\n',
            ] + self.spec_body_cells(y - 1, self.spec_width()) + seq!['|', '\n']
        }
    }

    /// The whole text rendering of this maze.
    pub open spec fn spec_text(self) -> Seq<char> {
        self.spec_text_rows(self.spec_height()) + self.spec_bottom_cells(self.spec_width())
            + seq!['\u{b7}', '\n']
    }

    /// Render the maze in the fixed text format: for each row top to bottom a
    /// ceiling line and a body line carrying the start and goal markers, then
    /// a closing all-wall line.
    pub fn to_text(&self) -> (r: String)
        ensures
            r@ == self.spec_text(),
    {
        proof {
            reveal_strlit("\u{b7}");
            reveal_strlit(" ");
            reveal_strlit("-");
            reveal_strlit("|");
            reveal_strlit("S");
            reveal_strlit("G");
            reveal_strlit("\n");
        }
        let mut out = String::new();
        let mut y: i32 = 0;
        while y < self.size.1
            invariant
                0 <= y,
                y <= (if self.size.1 > 0 {
                    self.size.1
                } else {
                    0
                }),
                out@ == self.spec_text_rows(y as int),
            decreases self.size.1 - y,
        {
            // ceiling line
            let mut x: i32 = 0;
            while x < self.size.0
                invariant
                    0 <= y < self.size.1,
                    0 <= x,
                    x <= (if self.size.0 > 0 {
                        self.size.0
                    } else {
                        0
                    }),
                    out@ == self.spec_text_rows(y as int) + self.spec_ceiling_cells(
                        y as int,
                        x as int,
                    ),
                decreases self.size.0 - x,
            {
                proof {
                    reveal_strlit("\u{b7}");
                    reveal_strlit(" ");
                    reveal_strlit("-");
                }
                let c = Coordinates::new(x, y);
                out.append("\u{b7}");
                if graph_has_edge(&self.graph, c, c.next(&Direction::North)) {
                    out.append(" ");
                } else {
                    out.append("-");
                }
                proof {
                    assert(out@ =~= self.spec_text_rows(y as int) + self.spec_ceiling_cells(
                        y as int,
                        x as int + 1,
                    ));
                }
                x = x + 1;
            }
            proof {
                reveal_strlit("\u{b7}");
                reveal_strlit("\n");
            }
            out.append("\u{b7}");
            out.append("\n");
            let ghost mid = out@;

            // body line with start and goal markers
            let mut x: i32 = 0;
            while x < self.size.0
                invariant
                    0 <= y < self.size.1,
                    0 <= x,
                    x <= (if self.size.0 > 0 {
                        self.size.0
                    } else {
                        0
                    }),
                    mid == self.spec_text_rows(y as int) + self.spec_ceiling_cells(
                        y as int,
                        self.spec_width(),
                    ) + seq!['\u{b7}', '\n'],
                    out@ == mid + self.spec_body_cells(y as int, x as int),
                decreases self.size.0 - x,
            {
                proof {
                    reveal_strlit(" ");
                    reveal_strlit("-");
                    reveal_strlit("|");
                    reveal_strlit("S");
                    reveal_strlit("G");
                }
                let c = Coordinates::new(x, y);
                if graph_has_edge(&self.graph, c, c.next(&Direction::West)) {
                    out.append(" ");
                } else {
                    out.append("|");
                }
                if self.start == c {
                    out.append("S");
                } else if self.goal == c {
                    out.append("G");
                } else {
                    out.append(" ");
                }
                proof {
                    assert(out@ =~= mid + self.spec_body_cells(y as int, x as int + 1));
                }
                x = x + 1;
            }
            proof {
                reveal_strlit("|");
                reveal_strlit("\n");
            }
            out.append("|");
            out.append("\n");
            proof {
                assert(out@ =~= self.spec_text_rows(y as int + 1));
            }
            y = y + 1;
        }
        proof {
            assert(out@ == self.spec_text_rows(self.spec_height())) by {
                if self.size.1 <= 0 {
                    assert(self.spec_text_rows(self.spec_height()) =~= Seq::<char>::empty());
                    assert(self.spec_text_rows(0) =~= Seq::<char>::empty());
                }
            }
        }
        let ghost rows = out@;

        // closing all-wall line
        let mut x: i32 = 0;
        while x < self.size.0
            invariant
                0 <= x,
                x <= (if self.size.0 > 0 {
                    self.size.0
                } else {
                    0
                }),
                rows == self.spec_text_rows(self.spec_height()),
                out@ == rows + self.spec_bottom_cells(x as int),
            decreases self.size.0 - x,
        {
            proof {
                reveal_strlit("\u{b7}");
                reveal_strlit("-");
            }
            out.append("\u{b7}");
            out.append("-");
            proof {
                assert(out@ =~= rows + self.spec_bottom_cells(x as int + 1));
            }
            x = x + 1;
        }
        proof {
            reveal_strlit("\u{b7}");
            reveal_strlit("\n");
        }
        out.append("\u{b7}");
        out.append("\n");
        proof {
            assert(self.spec_bottom_cells(self.spec_width()) == self.spec_bottom_cells(
                if self.size.0 > 0 {
                    self.size.0 as int
                } else {
                    0
                },
            )) by {
                if self.size.0 <= 0 {
                    assert(self.spec_bottom_cells(self.spec_width()) =~= Seq::<char>::empty());
                    assert(self.spec_bottom_cells(0) =~= Seq::<char>::empty());
                }
            }
            assert(out@ =~= self.spec_text());
        }
        out
    }
}

} // verus!
