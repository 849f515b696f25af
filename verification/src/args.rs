use crate::update_index::Settings;
use vstd::prelude::*;

verus! {

/// One invocation's inputs, as plain values: the three tree roots as byte
/// paths, the confirmation and ignore-file choices, and the update policy.
/// Reading these from the command line is the surrounding program's part.
#[derive(Debug)]
pub struct Args {
    /// the data to be backed up
    pub source: Vec<u8>,
    /// the index used to determine which files have been modified
    pub index: Vec<u8>,
    /// where the backup will be stored; absent for an index-only dry run
    pub target: Option<Vec<u8>>,
    /// don't ask for confirmation, just apply the changes
    pub noconfirm: bool,
    /// the file naming what should be ignored, if one was given
    pub ignore: Option<Vec<u8>>,
    pub settings: Settings,
}

} // verus!
