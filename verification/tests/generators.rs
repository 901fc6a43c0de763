use std::collections::HashSet;

use maze_generator::{
    Coordinates, Direction, EllersGenerator, Generator, GrowingTreeGenerator, Maze,
    PrimsGenerator, RbGenerator,
};

const DIRS: [Direction; 4] = [
    Direction::North,
    Direction::East,
    Direction::South,
    Direction::West,
];

fn seed(b: u8) -> [u8; 32] {
    [b; 32]
}

/// Every coordinate of the grid yields a field.
fn check_full_coverage(maze: &Maze) {
    let (width, height) = maze.size;
    for x in 0..width {
        for y in 0..height {
            assert!(maze.get_field(&Coordinates::new(x, y)).is_some());
        }
    }
}

/// The cells reachable from `from` by walking open passages.
fn reachable_cells(maze: &Maze, from: Coordinates) -> HashSet<(i32, i32)> {
    let mut seen = HashSet::new();
    let mut queue = vec![from];
    seen.insert((from.x, from.y));
    while let Some(c) = queue.pop() {
        let field = maze.get_field(&c).unwrap();
        for dir in DIRS.iter() {
            if field.has_passage(dir) {
                let n = c.next(dir);
                if seen.insert((n.x, n.y)) {
                    queue.push(n);
                }
            }
        }
    }
    seen
}

/// The connectivity graph has exactly one connected component.
fn check_single_component(maze: &Maze) {
    let (width, height) = maze.size;
    let seen = reachable_cells(maze, maze.start);
    assert_eq!(seen.len(), (width as usize) * (height as usize));
}

/// The graph has exactly `width * height - 1` edges: each undirected edge
/// shows up as two open passages over all fields.
fn check_tree_size(maze: &Maze) {
    let (width, height) = maze.size;
    let mut passages = 0usize;
    for x in 0..width {
        for y in 0..height {
            let field = maze.get_field(&Coordinates::new(x, y)).unwrap();
            for dir in DIRS.iter() {
                if field.has_passage(dir) {
                    passages += 1;
                }
            }
        }
    }
    assert_eq!(passages, 2 * ((width as usize) * (height as usize) - 1));
}

/// A path exists between start and goal.
fn check_reachability(maze: &Maze) {
    let seen = reachable_cells(maze, maze.start);
    assert!(seen.contains(&(maze.goal.x, maze.goal.y)));
}

/// Passages between neighbors agree from both sides.
fn check_symmetry(maze: &Maze) {
    let (width, height) = maze.size;
    for x in 0..width {
        for y in 0..height {
            let c = Coordinates::new(x, y);
            let field = maze.get_field(&c).unwrap();
            for dir in DIRS.iter() {
                let n = c.next(dir);
                if let Some(nfield) = maze.get_field(&n) {
                    assert_eq!(
                        field.has_passage(dir),
                        nfield.has_passage(&dir.opposite()),
                        "asymmetric passage at ({x}, {y})"
                    );
                } else {
                    assert!(!field.has_passage(dir), "passage out of bounds at ({x}, {y})");
                }
            }
        }
    }
}

fn check_all(maze: &Maze, width: i32, height: i32) {
    assert_eq!(maze.size, (width, height));
    assert_eq!((maze.start.x, maze.start.y), (0, 0));
    check_full_coverage(maze);
    check_single_component(maze);
    check_tree_size(maze);
    check_reachability(maze);
    check_symmetry(maze);
}

#[test]
fn rb_properties() {
    for (b, w, h) in [(7u8, 1, 1), (9, 4, 3), (11, 5, 5), (13, 1, 6)] {
        let mut generator = RbGenerator::new(Some(seed(b)));
        let maze = generator.generate(w, h).unwrap();
        check_all(&maze, w, h);
    }
}

#[test]
fn ellers_properties() {
    for (b, w, h) in [(7u8, 1, 1), (9, 4, 3), (11, 5, 5), (13, 6, 1)] {
        let mut generator = EllersGenerator::new(Some(seed(b)));
        let maze = generator.generate(w, h).unwrap();
        check_all(&maze, w, h);
    }
}

#[test]
fn prims_properties() {
    for (b, w, h) in [(7u8, 1, 1), (9, 4, 3), (11, 5, 5), (13, 1, 6)] {
        let mut generator = PrimsGenerator::new(Some(seed(b)));
        let maze = generator.generate(w, h).unwrap();
        check_all(&maze, w, h);
    }
}

#[test]
fn growing_tree_properties() {
    for (b, w, h) in [(7u8, 1, 1), (9, 4, 3), (11, 5, 5), (13, 1, 6)] {
        let mut generator = GrowingTreeGenerator::new(Some(seed(b)));
        let maze = generator.generate(w, h).unwrap();
        check_all(&maze, w, h);
    }
}

#[test]
fn rb_determinism() {
    let mut g1 = RbGenerator::new(Some(seed(42)));
    let mut g2 = RbGenerator::new(Some(seed(42)));
    assert!(g1.generate(4, 4).unwrap() == g2.generate(4, 4).unwrap());
}

#[test]
fn ellers_determinism() {
    let mut g1 = EllersGenerator::new(Some(seed(42)));
    let mut g2 = EllersGenerator::new(Some(seed(42)));
    assert!(g1.generate(4, 4).unwrap() == g2.generate(4, 4).unwrap());
}

#[test]
fn prims_determinism() {
    let mut g1 = PrimsGenerator::new(Some(seed(42)));
    let mut g2 = PrimsGenerator::new(Some(seed(42)));
    assert!(g1.generate(4, 4).unwrap() == g2.generate(4, 4).unwrap());
}

#[test]
fn growing_tree_determinism() {
    let mut g1 = GrowingTreeGenerator::new(Some(seed(42)));
    let mut g2 = GrowingTreeGenerator::new(Some(seed(42)));
    assert!(g1.generate(4, 4).unwrap() == g2.generate(4, 4).unwrap());
}
