use vstd::prelude::*;
use std::path::PathBuf;

verus! {

/// A list kept in a file, encoded with bincode.
#[derive(Debug)]
pub struct Bincode {
    pub path: PathBuf,
}

} // verus!
