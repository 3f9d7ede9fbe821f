//! The user-level configuration file.  Reading and decoding it is the
//! surrounding program's work; the settings it may carry live here.
use crate::theme::Theme;
use vstd::prelude::*;

verus! {

/// Settings read from the user's configuration file, all optional.
#[derive(Debug)]
pub struct Config {
    pub theme: Option<Theme>,
}

impl Default for Config {
    /// An absent configuration file configures nothing.
    fn default() -> (r: Self)
        ensures
            r.theme is None,
    {
        Config { theme: None }
    }
}

} // verus!
