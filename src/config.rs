use vstd::prelude::*;

verus! {

/// Settings read at startup.
#[derive(Debug, Clone)]
pub struct Config {
    pub data_file: String,
}

} // verus!
