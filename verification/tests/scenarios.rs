use maze_generator::{
    Coordinates, Direction, EllersGenerator, Generator, GenericGeneratorError,
    GrowingTreeGenerator, GrowingTreeSelectionMethod, PrimsGenerator, RbGenerator,
};

#[test]
fn test_south_passage() {
    let mut generator = EllersGenerator::new(Some([1; 32]));
    let maze = generator.generate(3, 3).unwrap();
    let (width, height) = maze.size;

    println!("{}", maze.to_text());

    for i in 0..width {
        if let Some(field) = maze.get_field(&Coordinates::new(i, height - 1)) {
            assert!(
                !field.has_passage(&Direction::South),
                "South passage at ({i}, {})",
                height - 1
            );
        }
    }
}

#[test]
fn rb_same_seed_renders_identically() {
    let mut g1 = RbGenerator::new(Some([42; 32]));
    let mut g2 = RbGenerator::new(Some([42; 32]));
    let t1 = g1.generate(3, 3).unwrap().to_text();
    let t2 = g2.generate(3, 3).unwrap().to_text();
    assert_eq!(t1, t2);
}

#[test]
fn prims_single_cell() {
    let mut generator = PrimsGenerator::new(Some([5; 32]));
    let maze = generator.generate(1, 1).unwrap();
    assert_eq!((maze.start.x, maze.start.y), (0, 0));
    assert_eq!((maze.goal.x, maze.goal.y), (0, 0));
    let field = maze.get_field(&Coordinates::new(0, 0)).unwrap();
    for dir in [
        Direction::North,
        Direction::East,
        Direction::South,
        Direction::West,
    ] {
        assert!(!field.has_passage(&dir));
    }
}

#[test]
fn growing_tree_most_recent_weak_properties() {
    // the most-recent selection explores depth-first like the recursive
    // backtracker; random draw sequencing differs between the two
    // implementations, so the structural properties are asserted instead of
    // graph isomorphism
    let mut generator = GrowingTreeGenerator::new(Some([42; 32]));
    generator.selection_method = GrowingTreeSelectionMethod::MostRecent;
    let maze = generator.generate(4, 4).unwrap();

    let mut passages = 0usize;
    for x in 0..4 {
        for y in 0..4 {
            let field = maze.get_field(&Coordinates::new(x, y)).unwrap();
            for dir in [
                Direction::North,
                Direction::East,
                Direction::South,
                Direction::West,
            ] {
                if field.has_passage(&dir) {
                    passages += 1;
                }
            }
        }
    }
    assert_eq!(passages, 2 * (16 - 1));

    // reach every cell from the start
    let mut seen = std::collections::HashSet::new();
    let mut queue = vec![maze.start];
    seen.insert((maze.start.x, maze.start.y));
    while let Some(c) = queue.pop() {
        let field = maze.get_field(&c).unwrap();
        for dir in [
            Direction::North,
            Direction::East,
            Direction::South,
            Direction::West,
        ] {
            if field.has_passage(&dir) {
                let n = c.next(&dir);
                if seen.insert((n.x, n.y)) {
                    queue.push(n);
                }
            }
        }
    }
    assert_eq!(seen.len(), 16);
    assert!(seen.contains(&(maze.goal.x, maze.goal.y)));
}

#[test]
fn growing_tree_random_selection_spans_grid() {
    let mut generator = GrowingTreeGenerator::new(Some([23; 32]));
    generator.selection_method = GrowingTreeSelectionMethod::Random;
    let maze = generator.generate(5, 4).unwrap();
    let mut passages = 0usize;
    for x in 0..5 {
        for y in 0..4 {
            let field = maze.get_field(&Coordinates::new(x, y)).unwrap();
            for dir in [
                Direction::North,
                Direction::East,
                Direction::South,
                Direction::West,
            ] {
                if field.has_passage(&dir) {
                    passages += 1;
                }
            }
        }
    }
    assert_eq!(passages, 2 * (20 - 1));
}

#[test]
fn invalid_dimensions_rejected() {
    let mut rb = RbGenerator::new(Some([1; 32]));
    let mut el = EllersGenerator::new(Some([1; 32]));
    let mut pr = PrimsGenerator::new(Some([1; 32]));
    let mut gt = GrowingTreeGenerator::new(Some([1; 32]));
    assert!(matches!(
        rb.generate(0, 5),
        Err(GenericGeneratorError::InvalidDimensions(0, 5))
    ));
    assert!(matches!(
        el.generate(5, -1),
        Err(GenericGeneratorError::InvalidDimensions(5, -1))
    ));
    assert!(matches!(
        pr.generate(0, -1),
        Err(GenericGeneratorError::InvalidDimensions(0, -1))
    ));
    assert!(matches!(
        gt.generate(-3, 2),
        Err(GenericGeneratorError::InvalidDimensions(-3, 2))
    ));
}

#[test]
fn two_by_one_mazes_compare_equal() {
    // a 2 by 1 maze has a single forced passage, so any two generators agree
    // up to graph isomorphism
    let mut g1 = RbGenerator::new(Some([3; 32]));
    let mut g2 = PrimsGenerator::new(Some([200; 32]));
    let m1 = g1.generate(2, 1).unwrap();
    let m2 = g2.generate(2, 1).unwrap();
    assert!(m1 == m2);
}
