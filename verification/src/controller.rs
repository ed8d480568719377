//! "The brain": task submission, and what the controller's LAN surface
//! answers — its status, the registry listing, registrations, and the
//! aggregate of every node's `/hello` replies. Moving bytes over HTTP is the
//! caller's I/O; the answers are decided here.

use vstd::prelude::*;
use std::time::{Duration, SystemTime, SystemTimeError};
use crate::proto::{
    HelloResponse, NodeDescriptor, NodeHello, NodeHelloView, NodesResponse, RegisterRequest, RegisterResponse, StatusResponse, Task,
    node_views, opt_view, PROTOCOL_VERSION,
};
use crate::registry::{after_upsert, sorted_by_id, MemoryRegistry, RegistryError};
use crate::text::{append_str, blank, concat2, is_blank, lemma_seq_lt_order, seq_lt, str_lt, trim_slashes, trim_trailing_slashes, views};

verus! {

// ── task submission ─────────────────────────────────────────────────────────

#[derive(Debug, PartialEq, Eq)]
pub enum ControlError {
    Rejected(String),
}

impl ControlError {
    /// The error as a line of text.
    pub fn message(&self) -> (r: String)
        ensures
            match self {
                ControlError::Rejected(m) => r@ == "task rejected: "@ + m@,
            },
    {
        match self {
            ControlError::Rejected(m) => {
                let mut r = "task rejected: ".to_string();
                append_str(&mut r, m.as_str());
                r
            },
        }
    }
}

/// Offline controller for tests: validates the task and derives a
/// deterministic run id from its id.
pub struct FakeController;

impl FakeController {
    pub fn submit(&self, task: Task) -> (r: Result<String, ControlError>)
        ensures
            is_blank(task.request@) ==> (r matches Err(ControlError::Rejected(m)) && m@ == "empty request"@),
            !is_blank(task.request@) ==> (r matches Ok(id) && id@ == "run-"@ + task.id@),
    {
        if blank(task.request.as_str()) {
            return Err(ControlError::Rejected("empty request".to_string()));
        }
        Ok(concat2("run-", task.id.as_str()))
    }
}

// ── the clock ───────────────────────────────────────────────────────────────

#[verifier::external_type_specification]
#[verifier::external_body]
pub struct ExSystemTime(SystemTime);

#[verifier::external_type_specification]
#[verifier::external_body]
pub struct ExSystemTimeError(SystemTimeError);

/// Calls `SystemTime::now`. Nothing is claimed of the time it reads.
#[verifier::external_body]
fn clock_now() -> SystemTime {
    SystemTime::now()
}

/// Calls `SystemTime::duration_since(UNIX_EPOCH)`: an error when the clock
/// reads before the Unix epoch. Nothing is claimed of the span itself.
#[verifier::external_body]
fn since_unix_epoch(t: &SystemTime) -> Result<Duration, SystemTimeError> {
    t.duration_since(std::time::UNIX_EPOCH)
}

/// Calls `Duration::as_secs`. Nothing is claimed of the value, since Verus
/// sees no contents in a `Duration`.
#[verifier::external_body]
fn whole_seconds(d: &Duration) -> u64 {
    d.as_secs()
}

/// The `start_epoch` for what the clock gave: its whole seconds since the
/// Unix epoch, or 0 for a clock that reads before the epoch.
pub fn epoch_seconds(since_epoch: Option<u64>) -> (r: u64)
    ensures
        r == match since_epoch {
            Some(s) => s,
            None => 0,
        },
{
    match since_epoch {
        Some(s) => s,
        None => 0,
    }
}

/// Unix seconds now — a controller's `start_epoch` for leader election. A
/// clock set before 1970 gives 0 instead of failing (`epoch_seconds`). What
/// the clock reads is not stated.
pub fn now_epoch() -> u64 {
    let now = clock_now();
    let since_epoch = match since_unix_epoch(&now) {
        Ok(d) => Some(whole_seconds(&d)),
        Err(_) => None,
    };
    epoch_seconds(since_epoch)
}

// ── the LAN surface ─────────────────────────────────────────────────────────

/// `GET /status`: the protocol version and when this controller started.
pub fn status(start_epoch: u64) -> (r: StatusResponse)
    ensures
        r == (StatusResponse { protocol_version: PROTOCOL_VERSION, start_epoch }),
{
    StatusResponse { protocol_version: PROTOCOL_VERSION, start_epoch }
}

/// The `/nodes` answer listing `nodes`.
pub fn nodes_reply(nodes: Vec<NodeDescriptor>) -> (r: NodesResponse)
    ensures
        r.protocol_version == PROTOCOL_VERSION,
        r.nodes == nodes,
{
    NodesResponse { protocol_version: PROTOCOL_VERSION, nodes }
}

/// `GET /nodes`: the registry, ordered by node id.
pub fn list_nodes(registry: &MemoryRegistry) -> (r: Result<NodesResponse, RegistryError>)
    ensures
        r matches Ok(resp) && resp.protocol_version == PROTOCOL_VERSION && node_views(resp.nodes@) == registry@,
        sorted_by_id(registry@),
{
    match registry.list() {
        Ok(nodes) => Ok(nodes_reply(nodes)),
        Err(e) => Err(e),
    }
}

/// A registration from a peer speaking another protocol version: it is still
/// accepted (wire types tolerate unknown and missing fields), only noted.
pub fn protocol_drift(req: &RegisterRequest) -> (r: bool)
    ensures
        r == (req.protocol_version != PROTOCOL_VERSION),
{
    req.protocol_version != PROTOCOL_VERSION
}

/// The answer to a registration: accepted, with no message.
pub fn registration_accepted() -> (r: RegisterResponse)
    ensures
        r == (RegisterResponse { protocol_version: PROTOCOL_VERSION, accepted: true, message: None }),
{
    RegisterResponse { protocol_version: PROTOCOL_VERSION, accepted: true, message: None }
}

/// `POST /register`: upserts the node and accepts — whatever protocol version
/// the node speaks.
pub fn register(registry: &mut MemoryRegistry, req: RegisterRequest) -> (r: Result<RegisterResponse, RegistryError>)
    ensures
        r matches Ok(resp) && resp == (RegisterResponse {
            protocol_version: PROTOCOL_VERSION,
            accepted: true,
            message: None,
        }),
        sorted_by_id(final(registry)@),
        forall|x| #[trigger] final(registry)@.contains(x) <==> after_upsert(old(registry)@, req.node@, x),
{
    match registry.upsert(req.node) {
        Ok(()) => Ok(registration_accepted()),
        Err(e) => Err(e),
    }
}

/// Where a node's `/hello` is posted.
pub fn hello_url(addr: &str) -> (r: String)
    ensures
        r@ == trim_slashes(addr@) + "/hello"@,
{
    let base = trim_trailing_slashes(addr);
    concat2(base.as_str(), "/hello")
}

/// The entries standing in for a node that failed to answer: one per model it
/// advertised (or a single `?` if it declared none), each carrying the error.
pub open spec fn failure_entries(node: crate::proto::NodeDescriptorView, err: Seq<char>) -> Seq<NodeHelloView> {
    let models = if node.models.len() == 0 {
        seq!["?"@]
    } else {
        node.models.map_values(|m: crate::proto::ModelDescriptorView| m.id)
    };
    models.map_values(
        |m: Seq<char>|
            NodeHelloView { node_id: node.node_id, model: m, reply: None, error: Some(err), latency_ms: 0 },
    )
}

pub open spec fn hello_views(v: Seq<NodeHello>) -> Seq<NodeHelloView> {
    v.map_values(|h: NodeHello| h@)
}

pub fn error_replies(node: &NodeDescriptor, err: &str) -> (r: Vec<NodeHello>)
    ensures
        hello_views(r@) == failure_entries(node@, err@),
{
    let mut models: Vec<String> = Vec::new();
    if node.models.len() == 0 {
        models.push("?".to_string());
    } else {
        let mut i: usize = 0;
        while i < node.models.len()
            invariant
                i <= node.models.len(),
                models.len() == i,
                forall|j: int| 0 <= j < i ==> (#[trigger] models@[j])@ == node.models@[j].id@,
            decreases node.models.len() - i,
        {
            models.push(node.models[i].id.clone());
            i = i + 1;
        }
    }
    let ghost ms = views(models@);
    assert(ms =~= (if node@.models.len() == 0 {
        seq!["?"@]
    } else {
        node@.models.map_values(|m: crate::proto::ModelDescriptorView| m.id)
    }));
    let mut out: Vec<NodeHello> = Vec::new();
    let mut k: usize = 0;
    while k < models.len()
        invariant
            k <= models.len(),
            ms == views(models@),
            out.len() == k,
            forall|j: int|
                0 <= j < k ==> (#[trigger] out@[j])@ == (NodeHelloView {
                    node_id: node@.node_id,
                    model: ms[j],
                    reply: None,
                    error: Some(err@),
                    latency_ms: 0,
                }),
        decreases models.len() - k,
    {
        out.push(
            NodeHello {
                node_id: node.node_id.clone(),
                model: models[k].clone(),
                reply: None,
                error: Some(err.to_string()),
                latency_ms: 0,
            },
        );
        k = k + 1;
    }
    assert(hello_views(out@) =~= failure_entries(node@, err@));
    out
}

/// `a` sorts strictly before `b`: by node id, then by model.
pub open spec fn reply_lt(a: NodeHelloView, b: NodeHelloView) -> bool {
    seq_lt(a.node_id, b.node_id) || (a.node_id == b.node_id && seq_lt(a.model, b.model))
}

proof fn lemma_reply_order(a: NodeHelloView, b: NodeHelloView, c: NodeHelloView)
    ensures
        !reply_lt(a, a),
        reply_lt(a, b) ==> !reply_lt(b, a),
        reply_lt(a, b) && reply_lt(b, c) ==> reply_lt(a, c),
        !reply_lt(a, b) && !reply_lt(b, c) ==> !reply_lt(a, c),
        !reply_lt(a, b) && !reply_lt(b, a) ==> a.node_id == b.node_id && a.model == b.model,
        a.node_id == b.node_id && a.model == b.model ==> reply_lt(c, a) == reply_lt(c, b) && reply_lt(a, c)
            == reply_lt(b, c),
{
    lemma_seq_lt_order(a.node_id, b.node_id, c.node_id);
    lemma_seq_lt_order(a.model, b.model, c.model);
    lemma_seq_lt_order(c.node_id, b.node_id, a.node_id);
    lemma_seq_lt_order(c.model, b.model, a.model);
    lemma_seq_lt_order(a.node_id, c.node_id, b.node_id);
    lemma_seq_lt_order(a.model, c.model, b.model);
    lemma_seq_lt_order(b.node_id, a.node_id, c.node_id);
    lemma_seq_lt_order(b.model, a.model, c.model);
}

/// Ordered by node id, then model.
pub open spec fn replies_sorted(s: Seq<NodeHelloView>) -> bool {
    forall|i: int, j: int| 0 <= i < j < s.len() ==> !reply_lt(s[j], s[i])
}

fn reply_before(a: &NodeHello, b: &NodeHello) -> (r: bool)
    ensures
        r == reply_lt(a@, b@),
{
    if str_lt(a.node_id.as_str(), b.node_id.as_str()) {
        true
    } else if a.node_id == b.node_id {
        str_lt(a.model.as_str(), b.model.as_str())
    } else {
        false
    }
}

/// The entries of `s` for node `node` and model `model`, in order.
pub open spec fn entries_for(s: Seq<NodeHelloView>, node: Seq<char>, model: Seq<char>) -> Seq<NodeHelloView>
    decreases s.len(),
{
    if s.len() == 0 {
        Seq::empty()
    } else if s.last().node_id == node && s.last().model == model {
        entries_for(s.drop_last(), node, model).push(s.last())
    } else {
        entries_for(s.drop_last(), node, model)
    }
}

proof fn lemma_entries_insert(s: Seq<NodeHelloView>, p: int, e: NodeHelloView, node: Seq<char>, model: Seq<char>)
    requires
        0 <= p <= s.len(),
        e.node_id == node && e.model == model ==> forall|j: int|
            p <= j < s.len() ==> !(s[j].node_id == node && s[j].model == model),
    ensures
        entries_for(s.insert(p, e), node, model) == (if e.node_id == node && e.model == model {
            entries_for(s, node, model).push(e)
        } else {
            entries_for(s, node, model)
        }),
    decreases s.len(),
{
    let t = s.insert(p, e);
    if p == s.len() {
        assert(t.drop_last() =~= s);
    } else {
        assert(t.drop_last() =~= s.drop_last().insert(p, e));
        assert(t.last() == s.last());
        lemma_entries_insert(s.drop_last(), p, e, node, model);
    }
}

/// The aggregate's order: by node id, then model, whatever order the nodes
/// answered in. The sort is stable: the replies for one node and model keep
/// the order they arrived in.
pub fn sort_replies(replies: Vec<NodeHello>) -> (r: Vec<NodeHello>)
    ensures
        replies_sorted(hello_views(r@)),
        hello_views(r@).to_multiset() == hello_views(replies@).to_multiset(),
        forall|node: Seq<char>, model: Seq<char>|
            #[trigger] entries_for(hello_views(r@), node, model) == entries_for(hello_views(replies@), node, model),
{
    broadcast use vstd::seq_lib::group_to_multiset_ensures;
    let mut out: Vec<NodeHello> = Vec::new();
    let mut i: usize = 0;
    while i < replies.len()
        invariant
            i <= replies.len(),
            replies_sorted(hello_views(out@)),
            hello_views(out@).to_multiset() == hello_views(replies@.subrange(0, i as int)).to_multiset(),
            forall|node: Seq<char>, model: Seq<char>|
                #[trigger] entries_for(hello_views(out@), node, model) == entries_for(
                    hello_views(replies@.subrange(0, i as int)),
                    node,
                    model,
                ),
        decreases replies.len() - i,
    {
        let e = replies[i].clone();
        let ghost o = hello_views(out@);
        let mut p: usize = 0;
        while p < out.len() && !reply_before(&e, &out[p])
            invariant
                o == hello_views(out@),
                i < replies.len(),
                e@ == replies@[i as int]@,
                p <= out.len(),
                forall|j: int| 0 <= j < p ==> !reply_lt(e@, #[trigger] o[j]),
            decreases out.len() - p,
        {
            p = p + 1;
        }
        assert(p < out.len() ==> reply_lt(e@, o[p as int]));
        let ghost ev = e@;
        out.insert(p, e);
        proof {
            let o2 = hello_views(out@);
            assert(o2 =~= o.insert(p as int, ev));
            assert forall|a: int, b: int| 0 <= a < b < o2.len() implies !reply_lt(o2[b], o2[a]) by {
                if a < p && b == p {
                } else if a < p && b > p {
                    lemma_reply_order(o[b - 1], ev, o[a]);
                } else if a == p && b > p {
                    if p < o.len() {
                        assert(reply_lt(ev, o[p as int]));
                        lemma_reply_order(o[b - 1], o[p as int], ev);
                        if b - 1 > p {
                            assert(!reply_lt(o[b - 1], o[p as int]));
                        }
                        lemma_reply_order(ev, o[p as int], o[b - 1]);
                    }
                } else if a > p {
                    assert(!reply_lt(o[b - 1], o[a - 1]));
                }
            }
            vstd::seq_lib::to_multiset_insert(o, p as int, ev);
            let pre = replies@.subrange(0, i as int);
            assert(replies@.subrange(0, i + 1) =~= pre.push(replies@[i as int]));
            assert(hello_views(replies@.subrange(0, i + 1)) =~= hello_views(pre).push(ev));
            vstd::seq_lib::to_multiset_build(hello_views(pre), ev);
            assert(o2.to_multiset() == o.to_multiset().insert(ev));
            assert(hello_views(replies@.subrange(0, i + 1)).to_multiset() == hello_views(pre).to_multiset().insert(ev));
            assert forall|j: int| p <= j < o.len() implies reply_lt(ev, #[trigger] o[j]) by {
                assert(reply_lt(ev, o[p as int]));
                if j > p {
                    assert(!reply_lt(o[j], o[p as int]));
                    lemma_reply_order(ev, o[p as int], o[j]);
                    lemma_reply_order(o[p as int], o[j], ev);
                }
            }
            assert forall|node: Seq<char>, model: Seq<char>|
                #[trigger] entries_for(o2, node, model) == entries_for(
                    hello_views(replies@.subrange(0, i + 1)),
                    node,
                    model,
                ) by {
                if ev.node_id == node && ev.model == model {
                    assert forall|j: int| p <= j < o.len() implies !(o[j].node_id == node && o[j].model == model) by {
                        assert(reply_lt(ev, o[j]));
                        if o[j].node_id == node && o[j].model == model {
                            lemma_reply_order(ev, ev, ev);
                        }
                    }
                }
                lemma_entries_insert(o, p as int, ev, node, model);
                assert(hello_views(pre).push(ev).drop_last() =~= hello_views(pre));
            }
        }
        i = i + 1;
    }
    assert(replies@.subrange(0, replies.len() as int) =~= replies@);
    out
}


/// The entries for one node and model, seen from the front of the list.
proof fn lemma_entries_front(s: Seq<NodeHelloView>, node: Seq<char>, model: Seq<char>)
    requires
        s.len() > 0,
    ensures
        entries_for(s, node, model) == (if s[0].node_id == node && s[0].model == model {
            seq![s[0]]
        } else {
            Seq::<NodeHelloView>::empty()
        }) + entries_for(s.drop_first(), node, model),
    decreases s.len(),
{
    let head = if s[0].node_id == node && s[0].model == model {
        seq![s[0]]
    } else {
        Seq::<NodeHelloView>::empty()
    };
    if s.len() == 1 {
        assert(s.drop_last() =~= Seq::<NodeHelloView>::empty());
        assert(s.drop_first() =~= Seq::<NodeHelloView>::empty());
        assert(s.last() == s[0]);
        assert(entries_for(s, node, model) =~= head + entries_for(s.drop_first(), node, model));
    } else {
        let t = s.drop_last();
        lemma_entries_front(t, node, model);
        assert(t[0] == s[0]);
        assert(s.drop_first().drop_last() =~= t.drop_first());
        assert(s.drop_first().last() == s.last());
        let rest = entries_for(t.drop_first(), node, model);
        if s.last().node_id == node && s.last().model == model {
            assert(entries_for(s, node, model) =~= head + rest.push(s.last()));
        } else {
            assert(entries_for(s, node, model) =~= head + rest);
        }
    }
}

/// An entry is listed for its node and model exactly when it is a reply of
/// the list.
proof fn lemma_entries_contain(s: Seq<NodeHelloView>, e: NodeHelloView)
    ensures
        entries_for(s, e.node_id, e.model).contains(e) <==> s.contains(e),
    decreases s.len(),
{
    if s.len() > 0 {
        let t = s.drop_last();
        lemma_entries_contain(t, e);
        let et = entries_for(t, e.node_id, e.model);
        if s.contains(e) {
            let i = choose|i: int| 0 <= i < s.len() && s[i] == e;
            if i < s.len() - 1 {
                assert(t[i] == e);
                if s.last().node_id == e.node_id && s.last().model == e.model {
                    let j = choose|j: int| 0 <= j < et.len() && et[j] == e;
                    assert(et.push(s.last())[j] == e);
                }
            } else {
                assert(et.push(s.last())[et.len() as int] == e);
            }
        }
        if entries_for(s, e.node_id, e.model).contains(e) {
            if s.last().node_id == e.node_id && s.last().model == e.model {
                let j = choose|j: int|
                    0 <= j < et.push(s.last()).len() && et.push(s.last())[j] == e;
                if j == et.len() {
                    assert(s[s.len() - 1] == e);
                } else {
                    assert(et[j] == e);
                    let i = choose|i: int| 0 <= i < t.len() && t[i] == e;
                    assert(s[i] == e);
                }
            } else {
                let i = choose|i: int| 0 <= i < t.len() && t[i] == e;
                assert(s[i] == e);
            }
        }
    }
}

/// Two ordered lists with the same replies for every node and model, in the
/// same order, are the same list.
proof fn lemma_sorted_determined(a: Seq<NodeHelloView>, b: Seq<NodeHelloView>)
    requires
        replies_sorted(a),
        replies_sorted(b),
        forall|node: Seq<char>, model: Seq<char>|
            #[trigger] entries_for(a, node, model) == entries_for(b, node, model),
    ensures
        a == b,
    decreases a.len() + b.len(),
{
    if a.len() == 0 || b.len() == 0 {
        if a.len() > 0 {
            lemma_entries_contain(a, a[0]);
            lemma_entries_contain(b, a[0]);
            assert(a.contains(a[0]));
            assert(entries_for(a, a[0].node_id, a[0].model) == entries_for(b, a[0].node_id, a[0].model));
        }
        if b.len() > 0 {
            lemma_entries_contain(a, b[0]);
            lemma_entries_contain(b, b[0]);
            assert(b.contains(b[0]));
            assert(entries_for(a, b[0].node_id, b[0].model) == entries_for(b, b[0].node_id, b[0].model));
        }
        assert(a =~= b);
    } else {
        let e = a[0];
        let f = b[0];
        lemma_entries_contain(a, e);
        lemma_entries_contain(b, e);
        lemma_entries_contain(a, f);
        lemma_entries_contain(b, f);
        assert(a.contains(e));
        assert(b.contains(f));
        assert(entries_for(a, e.node_id, e.model) == entries_for(b, e.node_id, e.model));
        assert(entries_for(a, f.node_id, f.model) == entries_for(b, f.node_id, f.model));
        let i = choose|i: int| 0 <= i < b.len() && b[i] == e;
        let j = choose|j: int| 0 <= j < a.len() && a[j] == f;
        if i > 0 {
            assert(!reply_lt(b[i], b[0]));
        }
        if j > 0 {
            assert(!reply_lt(a[j], a[0]));
        }
        lemma_reply_order(e, f, e);
        lemma_reply_order(f, e, f);
        assert(e.node_id == f.node_id && e.model == f.model);
        lemma_entries_front(a, e.node_id, e.model);
        lemma_entries_front(b, e.node_id, e.model);
        assert(entries_for(a, e.node_id, e.model)[0] == e);
        assert(entries_for(b, e.node_id, e.model)[0] == f);
        let a1 = a.drop_first();
        let b1 = b.drop_first();
        assert forall|node: Seq<char>, model: Seq<char>|
            #[trigger] entries_for(a1, node, model) == entries_for(b1, node, model) by {
            lemma_entries_front(a, node, model);
            lemma_entries_front(b, node, model);
            assert(entries_for(a, node, model) == entries_for(b, node, model));
            if e.node_id == node && e.model == model {
                assert(entries_for(a1, node, model) =~= entries_for(a, node, model).drop_first());
                assert(entries_for(b1, node, model) =~= entries_for(b, node, model).drop_first());
            } else {
                assert(entries_for(a1, node, model) =~= entries_for(a, node, model));
                assert(entries_for(b1, node, model) =~= entries_for(b, node, model));
            }
        }
        assert forall|p: int, q: int| 0 <= p < q < a1.len() implies !reply_lt(a1[q], a1[p]) by {
            assert(!reply_lt(a[q + 1], a[p + 1]));
        }
        assert forall|p: int, q: int| 0 <= p < q < b1.len() implies !reply_lt(b1[q], b1[p]) by {
            assert(!reply_lt(b[q + 1], b[p + 1]));
        }
        lemma_sorted_determined(a1, b1);
        assert(a =~= seq![e] + a1);
        assert(b =~= seq![f] + b1);
    }
}

/// The aggregate does not depend on the order in which the nodes answered,
/// beyond the order among replies for the same node and model: two arrival
/// orders that agree on that are aggregated alike. (Each node's replies come
/// as one list, so with distinct node ids that order never varies.)
pub proof fn lemma_aggregate_ignores_arrival_order(
    x: Seq<NodeHelloView>,
    y: Seq<NodeHelloView>,
    rx: Seq<NodeHelloView>,
    ry: Seq<NodeHelloView>,
)
    requires
        forall|node: Seq<char>, model: Seq<char>|
            #[trigger] entries_for(x, node, model) == entries_for(y, node, model),
        replies_sorted(rx),
        forall|node: Seq<char>, model: Seq<char>|
            #[trigger] entries_for(rx, node, model) == entries_for(x, node, model),
        replies_sorted(ry),
        forall|node: Seq<char>, model: Seq<char>|
            #[trigger] entries_for(ry, node, model) == entries_for(y, node, model),
    ensures
        rx == ry,
{
    assert forall|node: Seq<char>, model: Seq<char>|
        #[trigger] entries_for(rx, node, model) == entries_for(ry, node, model) by {
        assert(entries_for(rx, node, model) == entries_for(x, node, model));
        assert(entries_for(ry, node, model) == entries_for(y, node, model));
        assert(entries_for(x, node, model) == entries_for(y, node, model));
    }
    lemma_sorted_determined(rx, ry);
}

/// The `/hello` aggregate of every node's replies, ordered by node id, then
/// model (see `sort_replies`).
pub fn aggregate_replies(replies: Vec<NodeHello>) -> (r: HelloResponse)
    ensures
        r.protocol_version == PROTOCOL_VERSION,
        replies_sorted(hello_views(r.replies@)),
        hello_views(r.replies@).to_multiset() == hello_views(replies@).to_multiset(),
        forall|node: Seq<char>, model: Seq<char>|
            #[trigger] entries_for(hello_views(r.replies@), node, model) == entries_for(hello_views(replies@), node, model),
{
    HelloResponse { protocol_version: PROTOCOL_VERSION, replies: sort_replies(replies) }
}

/// A node that registered is listed, with the descriptor it sent — whatever
/// protocol version it spoke.
pub proof fn lemma_registered_node_is_listed(
    before: Seq<crate::proto::NodeDescriptorView>,
    after: Seq<crate::proto::NodeDescriptorView>,
    node: crate::proto::NodeDescriptorView,
)
    requires
        forall|x| #[trigger] after.contains(x) <==> after_upsert(before, node, x),
    ensures
        after.contains(node),
        forall|x: crate::proto::NodeDescriptorView| #[trigger] after.contains(x) && x.node_id == node.node_id ==> x == node,
{
    assert(after_upsert(before, node, node));
}

} // verus!
