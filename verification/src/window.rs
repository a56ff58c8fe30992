//! The description of a window.

use vstd::prelude::*;

verus! {

/// A Window: the title it is opened with.
pub struct Window {
    name: String,
}

impl Window {
    /// The title of the window.
    pub closed spec fn title(&self) -> Seq<char> {
        self.name@
    }

    /// Create a new Window with the title `name`. Neither `_pixels` nor
    /// `_width` has any effect on it.
    pub fn new(name: &str, _pixels: &[u8], _width: u16) -> (window: Window)
        ensures
            window.title() == name@,
    {
        Window { name: name.to_owned() }
    }

    /// The title of the window.
    pub fn name(&self) -> (name: &str)
        ensures
            name@ == self.title(),
    {
        self.name.as_str()
    }
}

} // verus!
