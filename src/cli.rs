//! Where the mirror lives by default.
use vstd::prelude::*;

use crate::download::{join_path, to_path};

verus! {

/// The directory under which the mirror's own directory is made.
pub struct CanvasParentDir(pub String);

impl CanvasParentDir {
    /// The mirror's directory: `CanvasFileSync` under this one.
    pub fn into_canvas_dir(self) -> (r: String)
        ensures
            r@ == join_path(self.0@, "CanvasFileSync"@),
    {
        let name = String::from_str("CanvasFileSync");
        to_path(&self.0, &name)
    }
}

} // verus!
