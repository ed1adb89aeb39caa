//! The window that the program opens with.
use vstd::prelude::*;

verus! {

/// The state of the welcome window.
#[derive(Clone, Copy, Debug, PartialEq, Eq, Structural)]
pub struct Welcome {
    pub launched: bool,
}

impl Welcome {
    /// The window as it opens.
    pub fn new() -> (r: Welcome)
        ensures
            !r.launched,
    {
        Welcome { launched: false }
    }

    /// Records that the editor was opened.
    pub fn launch(&mut self)
        ensures
            final(self).launched,
    {
        self.launched = true;
    }

    /// Whether closing the window ends the program: only while the editor was not opened.
    pub fn close_quits(&self) -> (r: bool)
        ensures
            r == !self.launched,
    {
        !self.launched
    }
}

} // verus!
