//! Layout algorithms: the orthogonal edge router and component search.

pub mod circular;
pub mod depth_first;
pub mod linear;
pub mod multipartite;
pub mod ortho;

use vstd::prelude::*;

verus! {

/// The layout algorithms the viewer offers.
#[derive(Debug, Clone, Copy, PartialEq, Eq, Structural)]
pub enum LayoutAlgorithm {
    Circular,
    HierarchicalHorizontal,
    HierarchicalVertical,
    LinearHorizontal,
    LinearVertical,
    Multipartite,
    Spectral,
    NodeOverlapRemoval,
    Orthogonal,
}

impl LayoutAlgorithm {
    /// The name shown for the algorithm.
    pub open spec fn spec_label(self) -> &'static str {
        match self {
            LayoutAlgorithm::Circular => "Cicular",
            LayoutAlgorithm::HierarchicalHorizontal => "Hierarchical Horizontal",
            LayoutAlgorithm::HierarchicalVertical => "Hierarchical Vertical",
            LayoutAlgorithm::LinearHorizontal => "Linear Horizontal",
            LayoutAlgorithm::LinearVertical => "Linear Vertical",
            LayoutAlgorithm::Multipartite => "Multipartite",
            LayoutAlgorithm::Spectral => "Spectral",
            LayoutAlgorithm::NodeOverlapRemoval => "Node Overlap Removal",
            LayoutAlgorithm::Orthogonal => "Orthogonal Edge Routing",
        }
    }

    /// The name shown for the algorithm.
    pub fn label(&self) -> (res: &'static str)
        ensures
            res@ == self.spec_label()@,
    {
        match self {
            LayoutAlgorithm::Circular => "Cicular",
            LayoutAlgorithm::HierarchicalHorizontal => "Hierarchical Horizontal",
            LayoutAlgorithm::HierarchicalVertical => "Hierarchical Vertical",
            LayoutAlgorithm::LinearHorizontal => "Linear Horizontal",
            LayoutAlgorithm::LinearVertical => "Linear Vertical",
            LayoutAlgorithm::Multipartite => "Multipartite",
            LayoutAlgorithm::Spectral => "Spectral",
            LayoutAlgorithm::NodeOverlapRemoval => "Node Overlap Removal",
            LayoutAlgorithm::Orthogonal => "Orthogonal Edge Routing",
        }
    }

    /// Whether the layout leaves the orthogonal edge routes in place; every
    /// other layout moves the nodes, so the routes are dropped.
    pub fn keeps_orthogonal_edges(&self) -> (res: bool)
        ensures
            res == (*self == LayoutAlgorithm::Orthogonal),
    {
        match self {
            LayoutAlgorithm::Orthogonal => true,
            _ => false,
        }
    }
}

/// Direction in which a layered layout grows.
#[derive(Debug, Clone, Copy, PartialEq, Eq, Structural)]
pub enum LayoutOrientation {
    Horizontal,
    Vertical,
}

/// The layout procedure to run, with its orientation where it has one.
#[derive(Debug, Clone, Copy, PartialEq, Eq, Structural)]
pub enum LayoutStep {
    Circular,
    Hierarchical(LayoutOrientation),
    Linear(LayoutOrientation),
    Multipartite,
    Spectral,
    NodeOverlapRemoval,
    Orthogonal,
}

/// What running a layout algorithm does: the procedure to run, and
/// whether the orthogonal edge routes are dropped afterwards (hidden and
/// forgotten).
#[derive(Debug, Clone, Copy, PartialEq, Eq, Structural)]
pub struct LayoutPlan {
    pub step: LayoutStep,
    pub drop_orthogonal: bool,
}

/// The procedure of each algorithm: the hierarchical and linear layouts in
/// the orientation their name gives.
pub open spec fn layout_step(algorithm: LayoutAlgorithm) -> LayoutStep {
    match algorithm {
        LayoutAlgorithm::Circular => LayoutStep::Circular,
        LayoutAlgorithm::HierarchicalHorizontal => LayoutStep::Hierarchical(LayoutOrientation::Horizontal),
        LayoutAlgorithm::HierarchicalVertical => LayoutStep::Hierarchical(LayoutOrientation::Vertical),
        LayoutAlgorithm::LinearHorizontal => LayoutStep::Linear(LayoutOrientation::Horizontal),
        LayoutAlgorithm::LinearVertical => LayoutStep::Linear(LayoutOrientation::Vertical),
        LayoutAlgorithm::Multipartite => LayoutStep::Multipartite,
        LayoutAlgorithm::Spectral => LayoutStep::Spectral,
        LayoutAlgorithm::NodeOverlapRemoval => LayoutStep::NodeOverlapRemoval,
        LayoutAlgorithm::Orthogonal => LayoutStep::Orthogonal,
    }
}

/// How an algorithm is run: its procedure, and every algorithm but the
/// orthogonal edge routing drops the orthogonal routes.
pub fn run_layout_algorithm(algorithm: LayoutAlgorithm) -> (plan: LayoutPlan)
    ensures
        plan.step == layout_step(algorithm),
        plan.drop_orthogonal == (algorithm != LayoutAlgorithm::Orthogonal),
{
    let step = match algorithm {
        LayoutAlgorithm::Circular => LayoutStep::Circular,
        LayoutAlgorithm::HierarchicalHorizontal => LayoutStep::Hierarchical(LayoutOrientation::Horizontal),
        LayoutAlgorithm::HierarchicalVertical => LayoutStep::Hierarchical(LayoutOrientation::Vertical),
        LayoutAlgorithm::LinearHorizontal => LayoutStep::Linear(LayoutOrientation::Horizontal),
        LayoutAlgorithm::LinearVertical => LayoutStep::Linear(LayoutOrientation::Vertical),
        LayoutAlgorithm::Multipartite => LayoutStep::Multipartite,
        LayoutAlgorithm::Spectral => LayoutStep::Spectral,
        LayoutAlgorithm::NodeOverlapRemoval => LayoutStep::NodeOverlapRemoval,
        LayoutAlgorithm::Orthogonal => LayoutStep::Orthogonal,
    };
    LayoutPlan { step, drop_orthogonal: !algorithm.keeps_orthogonal_edges() }
}

} // verus!
