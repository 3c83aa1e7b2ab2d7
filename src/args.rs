//! The command line of the ledger program.
use vstd::prelude::*;

verus! {

/// The arguments of the program: the path of the input file.
pub struct Args {
    pub csv_file: String,
}

} // verus!
