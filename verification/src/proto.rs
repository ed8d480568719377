//! The shared vocabulary every part of the runtime speaks: tasks, citations,
//! node descriptors and the controller/node wire messages. No behaviour lives
//! here beyond building and copying values; each type has a view over plain
//! sequences that the contracts elsewhere are stated in.

use vstd::prelude::*;
use crate::text::views;

verus! {

/// Wire-protocol version, exchanged on every controller/node/client message.
/// Bumped only for incompatible changes; receivers accept a different version
/// and only warn.
pub const PROTOCOL_VERSION: u32 = 1;

/// The view of an optional string.
pub open spec fn opt_view(o: Option<String>) -> Option<Seq<char>> {
    match o {
        Some(s) => Some(s@),
        None => None,
    }
}

/// A copy of an optional string.
pub fn copy_opt(o: &Option<String>) -> (r: Option<String>)
    ensures
        r == *o,
{
    match o {
        Some(s) => Some(s.clone()),
        None => None,
    }
}

/// A copy of a vector of strings.
pub fn copy_strings(v: &Vec<String>) -> (r: Vec<String>)
    ensures
        r@ == v@,
{
    let mut r: Vec<String> = Vec::new();
    let mut i: usize = 0;
    while i < v.len()
        invariant
            i <= v.len(),
            r@ == v@.subrange(0, i as int),
        decreases v.len() - i,
    {
        r.push(v[i].clone());
        i = i + 1;
    }
    assert(v@.subrange(0, v.len() as int) =~= v@);
    r
}

/// One model a node can serve, as advertised to the controller.
#[derive(Debug, PartialEq, Eq)]
pub struct ModelDescriptor {
    /// Model id as the serving backend names it (e.g. `qwen3-coder:30b`).
    pub id: String,
    /// Capabilities this model advertises (`code.edit`, `reason.deep`, ...).
    pub capabilities: Vec<String>,
}

pub struct ModelDescriptorView {
    pub id: Seq<char>,
    pub capabilities: Seq<Seq<char>>,
}

impl View for ModelDescriptor {
    type V = ModelDescriptorView;

    open spec fn view(&self) -> ModelDescriptorView {
        ModelDescriptorView { id: self.id@, capabilities: views(self.capabilities@) }
    }
}

impl Clone for ModelDescriptor {
    fn clone(&self) -> (r: Self)
        ensures
            r@ == self@,
    {
        ModelDescriptor { id: self.id.clone(), capabilities: copy_strings(&self.capabilities) }
    }
}

/// The views of a sequence of model descriptors.
pub open spec fn model_views(v: Seq<ModelDescriptor>) -> Seq<ModelDescriptorView> {
    v.map_values(|m: ModelDescriptor| m@)
}

/// A copy of a vector of model descriptors.
pub fn copy_models(v: &Vec<ModelDescriptor>) -> (r: Vec<ModelDescriptor>)
    ensures
        model_views(r@) == model_views(v@),
{
    let mut r: Vec<ModelDescriptor> = Vec::new();
    let mut i: usize = 0;
    while i < v.len()
        invariant
            i <= v.len(),
            r.len() == i,
            model_views(r@) == model_views(v@.subrange(0, i as int)),
        decreases v.len() - i,
    {
        let ghost prev = r@;
        let c = v[i].clone();
        assert(c@ == v@[i as int]@);
        r.push(c);
        proof {
            assert forall|j: int| 0 <= j < i + 1 implies model_views(r@)[j] == model_views(
                v@.subrange(0, i + 1),
            )[j] by {
                if j < i {
                    assert(model_views(prev)[j] == model_views(v@.subrange(0, i as int))[j]);
                }
            }
            assert(model_views(r@) =~= model_views(v@.subrange(0, i + 1)));
        }
        i = i + 1;
    }
    assert(v@.subrange(0, v.len() as int) =~= v@);
    r
}

/// A node advertising itself to the controller at registration time.
#[derive(Debug, PartialEq, Eq)]
pub struct NodeDescriptor {
    pub node_id: String,
    /// Base URL other peers reach this node at, e.g. `http://host:8080`.
    pub addr: String,
    pub models: Vec<ModelDescriptor>,
    pub capabilities: Vec<String>,
}

pub struct NodeDescriptorView {
    pub node_id: Seq<char>,
    pub addr: Seq<char>,
    pub models: Seq<ModelDescriptorView>,
    pub capabilities: Seq<Seq<char>>,
}

impl View for NodeDescriptor {
    type V = NodeDescriptorView;

    open spec fn view(&self) -> NodeDescriptorView {
        NodeDescriptorView {
            node_id: self.node_id@,
            addr: self.addr@,
            models: model_views(self.models@),
            capabilities: views(self.capabilities@),
        }
    }
}

impl Clone for NodeDescriptor {
    fn clone(&self) -> (r: Self)
        ensures
            r@ == self@,
    {
        NodeDescriptor {
            node_id: self.node_id.clone(),
            addr: self.addr.clone(),
            models: copy_models(&self.models),
            capabilities: copy_strings(&self.capabilities),
        }
    }
}

/// The views of a sequence of node descriptors.
pub open spec fn node_views(v: Seq<NodeDescriptor>) -> Seq<NodeDescriptorView> {
    v.map_values(|n: NodeDescriptor| n@)
}

/// A copy of a vector of node descriptors.
pub fn copy_nodes(v: &Vec<NodeDescriptor>) -> (r: Vec<NodeDescriptor>)
    ensures
        node_views(r@) == node_views(v@),
{
    let mut r: Vec<NodeDescriptor> = Vec::new();
    let mut i: usize = 0;
    while i < v.len()
        invariant
            i <= v.len(),
            r.len() == i,
            node_views(r@) == node_views(v@.subrange(0, i as int)),
        decreases v.len() - i,
    {
        let ghost prev = r@;
        let c = v[i].clone();
        assert(c@ == v@[i as int]@);
        r.push(c);
        proof {
            assert forall|j: int| 0 <= j < i + 1 implies node_views(r@)[j] == node_views(
                v@.subrange(0, i + 1),
            )[j] by {
                if j < i {
                    assert(node_views(prev)[j] == node_views(v@.subrange(0, i as int))[j]);
                }
            }
            assert(node_views(r@) =~= node_views(v@.subrange(0, i + 1)));
        }
        i = i + 1;
    }
    assert(v@.subrange(0, v.len() as int) =~= v@);
    r
}

/// `POST /register` request body: a node announcing itself.
#[derive(Debug, PartialEq, Eq)]
pub struct RegisterRequest {
    pub protocol_version: u32,
    pub node: NodeDescriptor,
}

impl View for RegisterRequest {
    type V = (u32, NodeDescriptorView);

    open spec fn view(&self) -> (u32, NodeDescriptorView) {
        (self.protocol_version, self.node@)
    }
}

impl Clone for RegisterRequest {
    fn clone(&self) -> (r: Self)
        ensures
            r@ == self@,
    {
        RegisterRequest { protocol_version: self.protocol_version, node: self.node.clone() }
    }
}

/// `POST /register` response.
#[derive(Debug, PartialEq, Eq)]
pub struct RegisterResponse {
    pub protocol_version: u32,
    pub accepted: bool,
    pub message: Option<String>,
}

impl Clone for RegisterResponse {
    fn clone(&self) -> (r: Self)
        ensures
            r == *self,
    {
        RegisterResponse {
            protocol_version: self.protocol_version,
            accepted: self.accepted,
            message: copy_opt(&self.message),
        }
    }
}

/// `GET /nodes` response: the current registry the client renders.
#[derive(Debug, PartialEq, Eq)]
pub struct NodesResponse {
    pub protocol_version: u32,
    pub nodes: Vec<NodeDescriptor>,
}

impl View for NodesResponse {
    type V = (u32, Seq<NodeDescriptorView>);

    open spec fn view(&self) -> (u32, Seq<NodeDescriptorView>) {
        (self.protocol_version, node_views(self.nodes@))
    }
}

impl Clone for NodesResponse {
    fn clone(&self) -> (r: Self)
        ensures
            r@ == self@,
    {
        NodesResponse { protocol_version: self.protocol_version, nodes: copy_nodes(&self.nodes) }
    }
}

/// `GET /status` response — the discovery and leader-election probe. It
/// carries the controller's start time, since leadership goes to the earliest.
#[derive(Debug, Clone, Copy, PartialEq, Eq, Structural)]
pub struct StatusResponse {
    pub protocol_version: u32,
    /// Unix seconds when this controller process started.
    pub start_epoch: u64,
}

impl StatusResponse {
    /// The election key of this controller as seen with the given probe
    /// latency: earlier start first, then lower latency.
    pub fn election_key(&self, latency_ms: u64) -> (r: (u64, u64))
        ensures
            r == (self.start_epoch, latency_ms),
    {
        (self.start_epoch, latency_ms)
    }
}

/// A unit of work submitted to the runtime (e.g. `sag run fix`).
#[derive(Debug, PartialEq, Eq)]
pub struct Task {
    pub id: String,
    /// Natural-language request, e.g. "Fix intermittent cache expiry test".
    pub request: String,
}

impl Clone for Task {
    fn clone(&self) -> (r: Self)
        ensures
            r == *self,
    {
        Task { id: self.id.clone(), request: self.request.clone() }
    }
}

/// A reference to a repository a task operates over.
#[derive(Debug, PartialEq, Eq)]
pub struct RepoRef {
    pub path: String,
}

impl Clone for RepoRef {
    fn clone(&self) -> (r: Self)
        ensures
            r == *self,
    {
        RepoRef { path: self.path.clone() }
    }
}

/// Compact evidence the scout returns instead of whole files: a path plus an
/// inclusive, 1-based line range and why it matters.
#[derive(Debug, PartialEq, Eq)]
pub struct Citation {
    pub path: String,
    pub lines: (u32, u32),
    pub reason: String,
}

impl Clone for Citation {
    fn clone(&self) -> (r: Self)
        ensures
            r == *self,
    {
        Citation { path: self.path.clone(), lines: self.lines, reason: self.reason.clone() }
    }
}

/// A point-in-time view of a GPU node the scheduler selects over.
#[derive(Debug, PartialEq, Eq)]
pub struct NodeSnapshot {
    pub id: String,
    pub vram_gb: u32,
    /// Requests currently queued or in flight on this node.
    pub queue_depth: u32,
    /// Models already resident (warm) on this node.
    pub warm_models: Vec<String>,
}

pub struct NodeSnapshotView {
    pub id: Seq<char>,
    pub vram_gb: u32,
    pub queue_depth: u32,
    pub warm_models: Seq<Seq<char>>,
}

impl View for NodeSnapshot {
    type V = NodeSnapshotView;

    open spec fn view(&self) -> NodeSnapshotView {
        NodeSnapshotView {
            id: self.id@,
            vram_gb: self.vram_gb,
            queue_depth: self.queue_depth,
            warm_models: views(self.warm_models@),
        }
    }
}

impl Clone for NodeSnapshot {
    fn clone(&self) -> (r: Self)
        ensures
            r@ == self@,
    {
        NodeSnapshot {
            id: self.id.clone(),
            vram_gb: self.vram_gb,
            queue_depth: self.queue_depth,
            warm_models: copy_strings(&self.warm_models),
        }
    }
}

/// `POST /hello` request: a prompt to run against every model of every node.
#[derive(Debug, PartialEq, Eq)]
pub struct HelloRequest {
    pub protocol_version: u32,
    /// The prompt; a node uses its default greeting when absent.
    pub message: Option<String>,
}

impl Clone for HelloRequest {
    fn clone(&self) -> (r: Self)
        ensures
            r == *self,
    {
        HelloRequest { protocol_version: self.protocol_version, message: copy_opt(&self.message) }
    }
}

/// One model's answer to a `/hello` prompt (or why it could not answer).
#[derive(Debug, PartialEq, Eq)]
pub struct NodeHello {
    pub node_id: String,
    pub model: String,
    pub reply: Option<String>,
    pub error: Option<String>,
    pub latency_ms: u64,
}

pub struct NodeHelloView {
    pub node_id: Seq<char>,
    pub model: Seq<char>,
    pub reply: Option<Seq<char>>,
    pub error: Option<Seq<char>>,
    pub latency_ms: u64,
}

impl View for NodeHello {
    type V = NodeHelloView;

    open spec fn view(&self) -> NodeHelloView {
        NodeHelloView {
            node_id: self.node_id@,
            model: self.model@,
            reply: opt_view(self.reply),
            error: opt_view(self.error),
            latency_ms: self.latency_ms,
        }
    }
}

impl Clone for NodeHello {
    fn clone(&self) -> (r: Self)
        ensures
            r == *self,
    {
        NodeHello {
            node_id: self.node_id.clone(),
            model: self.model.clone(),
            reply: copy_opt(&self.reply),
            error: copy_opt(&self.error),
            latency_ms: self.latency_ms,
        }
    }
}

/// `POST /hello` response: every model's reply.
#[derive(Debug, PartialEq, Eq)]
pub struct HelloResponse {
    pub protocol_version: u32,
    pub replies: Vec<NodeHello>,
}

} // verus!
