//! What the graph refuses, and how it says so.

use vstd::prelude::*;
use vstd::string::*;

verus! {

/// Why `set_edge` refused.
#[derive(Debug, Clone, Copy, PartialEq, Eq, Structural)]
pub enum EdgeError {
    /// An edge with a name was to be created in a graph that is no multigraph.
    NamedEdgeOnSimpleGraph,
}

impl EdgeError {
    /// The refusal in words.
    pub fn message(&self) -> (r: String)
        ensures
            r@ == "Cannot set a named edge when isMultigraph = false"@,
    {
        String::from_str("Cannot set a named edge when isMultigraph = false")
    }
}

/// Why `set_parent` refused.
#[derive(Debug, PartialEq, Eq)]
pub enum HierarchyError {
    /// The graph was not created as a compound graph.
    NotCompound,
    /// `node` is `parent` or stands above it, so that `node` would become
    /// its own ancestor.
    WouldCreateCycle { parent: String, node: String },
}

impl HierarchyError {
    /// The refusal in words.
    pub fn message(&self) -> (r: String)
        ensures
            match *self {
                HierarchyError::NotCompound => r@ == "Cannot set parent in a non-compound graph"@,
                HierarchyError::WouldCreateCycle { parent, node } => r@ == "Setting "@ + parent@
                    + " as parent of "@ + node@ + " would create a cycle"@,
            },
    {
        match self {
            HierarchyError::NotCompound => String::from_str(
                "Cannot set parent in a non-compound graph",
            ),
            HierarchyError::WouldCreateCycle { parent, node } => {
                let mut s = String::from_str("Setting ");
                s.append(parent.as_str());
                s.append(" as parent of ");
                s.append(node.as_str());
                s.append(" would create a cycle");
                s
            },
        }
    }
}

/// A traversal was asked to start at something that is no node.
#[derive(Debug, PartialEq, Eq)]
pub struct UnknownNodeError {
    pub node: String,
}

impl UnknownNodeError {
    /// The failure in words.
    pub fn message(&self) -> (r: String)
        ensures
            r@ == "Graph does not have node: "@ + self.node@,
    {
        let mut s = String::from_str("Graph does not have node: ");
        s.append(self.node.as_str());
        s
    }
}

} // verus!
