//! The command-line arguments.

use vstd::prelude::*;

verus! {

/// The command-line arguments: the path of the configuration file.
pub struct Args {
    pub config: String,
}

} // verus!
