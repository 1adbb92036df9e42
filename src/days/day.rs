use vstd::prelude::*;

use super::text::decimal;

verus! {

/// The two answers of one day's puzzle, as text.
#[derive(Debug, PartialEq, Eq)]
pub struct DayResult {
    pub part1: String,
    pub part2: Option<String>,
}

impl DayResult {
    /// Both answers are given, as the decimal notation of `part1` and `part2`.
    pub open spec fn reports(&self, part1: nat, part2: nat) -> bool {
        &&& self.part1@ == decimal(part1)
        &&& self.part2 is Some
        &&& self.part2->Some_0@ == decimal(part2)
    }
}

/// One day's solver: it takes the whole puzzle input and gives both answers,
/// or a description of why the input was refused.
pub trait Day {
    fn run(&self, input: String) -> Result<DayResult, String>;
}

} // verus!
