use vstd::prelude::*;

verus! {

/// What a run is asked to do: the directories to scan, and how much to
/// report on the way.
#[derive(Debug)]
pub struct Config {
    pub dirs: Vec<String>,
    pub verbosity: u8,
}

} // verus!
