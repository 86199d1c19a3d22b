//! Command line options.

use vstd::prelude::*;

verus! {

/// The options the program takes: the page directory and the port to serve
/// on.  The embedding program parses its arguments into this.
#[derive(Debug)]
pub struct Opts {
    pub path: String,
    pub port: u16,
}

impl Clone for Opts {
    fn clone(&self) -> (r: Self)
        ensures
            r == *self,
    {
        Opts { path: self.path.clone(), port: self.port }
    }
}

} // verus!
