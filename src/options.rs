use vstd::prelude::*;

verus! {

/// How many seed points a search looks for unless told otherwise.
pub const DEFAULT_SEEDING_POINTS: usize = 10;

/// The lattice step of a seed point search unless told otherwise.
pub const DEFAULT_SEEDING_STEP: usize = 2;

/// What a run needs to know about its input and its seed point search. The anisotropy
/// threshold of the search is a floating-point value and is kept by the caller.
#[derive(Debug, PartialEq, Eq)]
pub struct Options {
    /// The data file stores its samples least significant byte first.
    pub little_endian: bool,
    pub width: usize,
    pub height: usize,
    pub depth: usize,
    /// The path of the data file, as bytes, if one was given.
    pub file: Option<Vec<u8>>,
    /// How many seed points to look for.
    pub n_seeding_points: usize,
    /// The lattice step of the seed point search.
    pub seeding_point_calculation_step_size: usize,
}

impl Options {
    pub open spec fn is_default(&self) -> bool {
        &&& !self.little_endian
        &&& self.width == 0
        &&& self.height == 0
        &&& self.depth == 0
        &&& self.file is None
        &&& self.n_seeding_points == DEFAULT_SEEDING_POINTS
        &&& self.seeding_point_calculation_step_size == DEFAULT_SEEDING_STEP
    }
}

impl Default for Options {
    fn default() -> (r: Options)
        ensures
            r.is_default(),
    {
        Options {
            little_endian: false,
            width: 0,
            height: 0,
            depth: 0,
            file: None,
            n_seeding_points: DEFAULT_SEEDING_POINTS,
            seeding_point_calculation_step_size: DEFAULT_SEEDING_STEP,
        }
    }
}

} // verus!
