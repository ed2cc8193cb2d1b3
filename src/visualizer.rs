//! Where a drawing is rendered to.
use vstd::prelude::*;

verus! {

/// Renders the rotating vectors as an HTML page saved under `file_name`.
pub struct HTMLVisualizer {
    file_name: String,
}

impl HTMLVisualizer {
    pub closed spec fn target(&self) -> Seq<char> {
        self.file_name@
    }

    /// A visualizer that writes to `file_name`.
    pub fn new(file_name: String) -> (r: HTMLVisualizer)
        ensures
            r.target() == file_name@,
    {
        HTMLVisualizer { file_name: file_name }
    }

    /// The name of the file the page is written to.
    pub fn file_name(&self) -> (r: &str)
        ensures
            r@ == self.target(),
    {
        self.file_name.as_str()
    }
}

} // verus!
