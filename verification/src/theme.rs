//! Color theme selection.  Detecting the terminal's background and the
//! concrete color palettes are rendering concerns of the surrounding
//! program; the choice itself is configuration.
use vstd::prelude::*;

verus! {

/// Which palette to use: follow the terminal, or force one.
#[derive(Clone, Copy, Debug, PartialEq, Eq, Structural)]
pub enum Theme {
    Auto,
    Dark,
    Light,
}

impl Default for Theme {
    /// The terminal's own background decides unless configured.
    fn default() -> (r: Self)
        ensures
            r == Theme::Auto,
    {
        Theme::Auto
    }
}

} // verus!
