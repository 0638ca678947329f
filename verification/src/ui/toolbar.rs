use vstd::prelude::*;

verus! {

/// A file action chosen from the menu bar, carried out by the editor during
/// the next frame.
pub enum PendingAction {
    /// Write the graph to the JSON file at this path.
    SaveGraph(String),
    /// Replace the graph with the one in the JSON file at this path.
    LoadGraph(String),
    /// Write the node layout to the INI file at this path.
    SaveIni(String),
    /// Read the node layout from the INI file at this path.
    LoadIni(String),
    /// Replace the graph with an empty one.
    NewGraph,
}

} // verus!
