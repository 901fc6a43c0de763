use vstd::prelude::*;

verus! {

/// Options for generating vector-graphic output.
pub struct SvgOptions {
    /// Padding around the maze, default: 10
    pub padding: i32,
    /// Height in pixels; use None to derive a height from the padding and the
    /// number of cells in the maze
    pub height: Option<i32>,
    /// Marker size for start and goal, default: 2
    pub markersize: i32,
    /// Start marker colour, either a named colour like 'red' or a hex string
    /// like '#FF0000', default: "red"
    pub startcol: String,
    /// Goal marker colour, default: "blue"
    pub goalcol: String,
    /// Stroke width, default: 4
    pub strokewidth: i32,
    /// Stroke colour, default: "#000000" (black)
    pub strokecol: String,
}

impl SvgOptions {
    /// Create a default SvgOptions object.
    pub fn new() -> (r: Self)
        ensures
            r.padding == 10,
            r.height is None,
            r.markersize == 2,
            r.startcol@ == "red"@,
            r.goalcol@ == "blue"@,
            r.strokewidth == 4,
            r.strokecol@ == "#000000"@,
    {
        SvgOptions {
            height: None,
            padding: 10,
            markersize: 2,
            startcol: String::from_str("red"),
            goalcol: String::from_str("blue"),
            strokewidth: 4,
            strokecol: String::from_str("#000000"),
        }
    }
}

impl Default for SvgOptions {
    /// The default options equal those of [`SvgOptions::new`].
    fn default() -> (r: Self)
        ensures
            r.padding == 10,
            r.height is None,
            r.markersize == 2,
            r.startcol@ == "red"@,
            r.goalcol@ == "blue"@,
            r.strokewidth == 4,
            r.strokecol@ == "#000000"@,
    {
        SvgOptions::new()
    }
}

} // verus!
