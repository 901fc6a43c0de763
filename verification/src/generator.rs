use vstd::prelude::*;
use crate::connectivity::connected;
use crate::maze::Maze;

verus! {

/// Generic error type that could be returned by all implemented generators.
#[derive(Debug, Clone, PartialEq, Eq)]
pub enum GenericGeneratorError {
    /// The requested size was rejected before any generation work began:
    /// width and height must both be positive.
    InvalidDimensions(i32, i32),
    /// Error that can be raised anywhere in a generator that is not otherwise
    /// explicitly handled.
    ///
    /// This is used as a way to signal bugs: it marks a broken structural
    /// assumption inside an algorithm, never bad input.
    InternalError(String),
}

/// Generic generator interface implemented by all algorithms to generate a maze.
pub trait Generator {
    /// Key function to generate a maze.
    ///
    /// The returned maze has the provided width and height, starts at the
    /// grid's origin, and its goal can be reached from its start; on a grid of
    /// two or more cells the goal is another cell than the start.  A
    /// non-positive width or height is rejected with an invalid-dimensions
    /// error before any generation work begins; no partially built maze is
    /// ever returned.
    fn generate(&mut self, width: i32, height: i32) -> (r: Result<
        Maze,
        GenericGeneratorError,
    >)
        ensures
            r is Ok <==> (1 <= width && 1 <= height),
            width < 1 || height < 1 ==> r == Result::<Maze, GenericGeneratorError>::Err(
                GenericGeneratorError::InvalidDimensions(width, height),
            ),
            r matches Ok(m) ==> {
                &&& m.wf()
                &&& m.spec_width() == width
                &&& m.spec_height() == height
                &&& m.spec_start() == (0int, 0int)
                &&& connected(m.edges(), m.spec_start(), m.spec_goal())
                &&& (width as int * height as int >= 2 ==> m.spec_goal() != m.spec_start())
            },
    ;
}

} // verus!
