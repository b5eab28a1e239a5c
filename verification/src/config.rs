use vstd::prelude::*;

verus! {

/// What the program was started with: shader files to open, whether the
/// window stays on top, and optionally a new file to create. The
/// command-line front end parses into its own copy of this shape and hands
/// the values over.
#[derive(Debug, Clone)]
pub struct AppConfig {
    pub files: Option<Vec<String>>,
    pub always_on_top: bool,
    pub new: Option<String>,
}

} // verus!
