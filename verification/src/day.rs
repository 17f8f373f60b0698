use vstd::prelude::*;

verus! {

/// The two rendered answers of one day's puzzle; some days only produce the
/// first part.
pub struct DayResult {
    pub part1: String,
    pub part2: Option<String>,
}

/// Uniform invocation interface: every day's solver takes the input file as a
/// list of lines and either produces its answers or reports a malformed input.
pub trait Day {
    fn run(&self, lines: Vec<String>) -> Result<DayResult, String>;
}

} // verus!
