//! "Pick which node": hard eligibility rejects nodes that cannot satisfy a
//! request; selection then picks among the survivors. Selection is pure and
//! runs over a list of node snapshots.

use vstd::prelude::*;
use crate::proto::{opt_view, NodeSnapshot, NodeSnapshotView};
use crate::text::views;

verus! {

/// What a task needs from a node — the input to hard eligibility.
#[derive(Debug, PartialEq, Eq, Default)]
pub struct ScheduleRequest {
    /// Model the task requires resident (warm) on the node, if any.
    pub required_model: Option<String>,
    /// Minimum free VRAM, in GB.
    pub min_vram_gb: u32,
}

#[derive(Debug, PartialEq, Eq)]
pub enum ScheduleError {
    NoEligibleNode,
}

impl ScheduleError {
    /// The error as a line of text.
    pub fn message(&self) -> (r: String)
        ensures
            r@ == "no eligible node for request"@,
    {
        "no eligible node for request".to_string()
    }
}

/// A node can take a request when it has enough VRAM and, if the request
/// names a model, holds that model warm.
pub open spec fn eligible(node: NodeSnapshotView, required_model: Option<Seq<char>>, min_vram_gb: u32) -> bool {
    &&& node.vram_gb >= min_vram_gb
    &&& match required_model {
        Some(m) => node.warm_models.contains(m),
        None => true,
    }
}

/// Chooses a node id for a request, or rejects it.
pub trait Scheduler {
    fn select(&self, nodes: &[NodeSnapshot], req: &ScheduleRequest) -> Result<String, ScheduleError>;
}

/// Baseline scheduler: hard eligibility, then the first survivor in list
/// order.
pub struct FakeScheduler;

impl FakeScheduler {
    pub fn eligible(node: &NodeSnapshot, req: &ScheduleRequest) -> (r: bool)
        ensures
            r == eligible(node@, opt_view(req.required_model), req.min_vram_gb),
    {
        if node.vram_gb < req.min_vram_gb {
            return false;
        }
        match &req.required_model {
            Some(m) => {
                assert(opt_view(req.required_model) == Some(m@));
                let mut i: usize = 0;
                while i < node.warm_models.len()
                    invariant
                        i <= node.warm_models.len(),
                        opt_view(req.required_model) == Some(m@),
                        node.vram_gb >= req.min_vram_gb,
                        forall|j: int| 0 <= j < i ==> node.warm_models@[j]@ != m@,
                    decreases node.warm_models.len() - i,
                {
                    if node.warm_models[i] == *m {
                        proof {
                            assert(views(node.warm_models@)[i as int] == m@);
                            assert(node@.warm_models.contains(m@));
                            assert(opt_view(req.required_model) == Some(m@));
                            assert(node@.vram_gb >= req.min_vram_gb);
                        }
                        return true;
                    }
                    i = i + 1;
                }
                proof {
                    if views(node.warm_models@).contains(m@) {
                        let j = choose|j: int|
                            0 <= j < views(node.warm_models@).len() && views(node.warm_models@)[j] == m@;
                        assert(node.warm_models@[j]@ == m@);
                    }
                }
                false
            },
            None => true,
        }
    }
}

/// A node can take a request only with enough VRAM, and only holding the
/// requested model warm when one is named — both hold whether or not a
/// model is named; a request naming no model asks for VRAM alone.
pub proof fn lemma_eligible_needs_vram_and_model(node: NodeSnapshotView, required_model: Option<Seq<char>>, min_vram_gb: u32)
    ensures
        eligible(node, required_model, min_vram_gb) ==> node.vram_gb >= min_vram_gb,
        eligible(node, required_model, min_vram_gb) && required_model is Some ==> node.warm_models.contains(
            required_model->Some_0,
        ),
        required_model is None ==> (eligible(node, required_model, min_vram_gb) <==> node.vram_gb >= min_vram_gb),
        node.vram_gb >= min_vram_gb && (required_model matches Some(m) ==> node.warm_models.contains(m)) ==> eligible(
            node,
            required_model,
            min_vram_gb,
        ),
{
}

pub open spec fn snapshot_views(v: Seq<NodeSnapshot>) -> Seq<NodeSnapshotView> {
    v.map_values(|n: NodeSnapshot| n@)
}

impl Scheduler for FakeScheduler {
    /// The id of the first eligible node; an error exactly when none is
    /// eligible.
    fn select(&self, nodes: &[NodeSnapshot], req: &ScheduleRequest) -> (r: Result<String, ScheduleError>)
        ensures
            r is Err <==> forall|i: int|
                0 <= i < nodes@.len() ==> !eligible(
                    #[trigger] snapshot_views(nodes@)[i],
                    opt_view(req.required_model),
                    req.min_vram_gb,
                ),
            r matches Ok(id) ==> exists|i: int|
                0 <= i < nodes@.len() && eligible(
                    #[trigger] snapshot_views(nodes@)[i],
                    opt_view(req.required_model),
                    req.min_vram_gb,
                ) && (forall|j: int|
                    0 <= j < i ==> !eligible(
                        snapshot_views(nodes@)[j],
                        opt_view(req.required_model),
                        req.min_vram_gb,
                    )) && id@ == nodes@[i].id@,
            r matches Ok(id) ==> exists|i: int|
                0 <= i < nodes@.len() && #[trigger] nodes@[i].id@ == id@ && nodes@[i].vram_gb >= req.min_vram_gb
                    && (req.required_model matches Some(m) ==> views(nodes@[i].warm_models@).contains(m@)),
    {
        let ghost s = snapshot_views(nodes@);
        let mut i: usize = 0;
        while i < nodes.len()
            invariant
                s == snapshot_views(nodes@),
                i <= nodes@.len(),
                forall|j: int| 0 <= j < i ==> !eligible(#[trigger] s[j], opt_view(req.required_model), req.min_vram_gb),
            decreases nodes@.len() - i,
        {
            if FakeScheduler::eligible(&nodes[i], req) {
                assert(s[i as int] == nodes@[i as int]@);
                return Ok(nodes[i].id.clone());
            }
            assert(s[i as int] == nodes@[i as int]@);
            i = i + 1;
        }
        Err(ScheduleError::NoEligibleNode)
    }
}

} // verus!
