use vstd::prelude::*;

verus! {

/// Which side of a vertical splitter the resizable panel is on.
#[derive(Clone, Copy, Debug, PartialEq, Eq, Structural)]
pub enum SplitterSide {
    /// The panel being resized is on the left of the splitter.
    Left,
    /// The panel being resized is on the right of the splitter.
    Right,
}

} // verus!
