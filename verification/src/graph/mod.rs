pub mod laws;
pub mod model;
pub mod spec;
pub mod state;

pub use model::{Link, LinkId, Node, NodeId, Pin, PinId, PinKind};
pub use state::GraphState;
