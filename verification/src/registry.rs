//! The node registry: the list of nodes that have registered with the
//! controller. Registration is an upsert by `node_id` — a node restarting or
//! upgrading refreshes its entry instead of creating a duplicate — and the
//! registry lists its nodes ordered by `node_id`.

use vstd::prelude::*;
use crate::proto::{copy_nodes, node_views, NodeDescriptor, NodeDescriptorView};
use crate::text::{append_str, lemma_seq_lt_order, seq_lt, str_lt};

verus! {

#[derive(Debug, PartialEq, Eq)]
pub enum RegistryError {
    Backend(String),
}

impl RegistryError {
    /// The error as a line of text.
    pub fn message(&self) -> (r: String)
        ensures
            match self {
                RegistryError::Backend(m) => r@ == "registry backend error: "@ + m@,
            },
    {
        match self {
            RegistryError::Backend(m) => {
                let mut r = "registry backend error: ".to_string();
                append_str(&mut r, m.as_str());
                r
            },
        }
    }
}

/// Strictly increasing by `node_id` — hence no `node_id` occurs twice.
pub open spec fn sorted_by_id(s: Seq<NodeDescriptorView>) -> bool {
    forall|i: int, j: int| 0 <= i < j < s.len() ==> seq_lt(s[i].node_id, s[j].node_id)
}

/// After registering `n` into `s`, `x` is listed exactly when it is `n` or an
/// entry of `s` for another node.
pub open spec fn after_upsert(s: Seq<NodeDescriptorView>, n: NodeDescriptorView, x: NodeDescriptorView) -> bool {
    x == n || (s.contains(x) && x.node_id != n.node_id)
}

/// In-memory registry, no persistence and no I/O.
pub struct MemoryRegistry {
    nodes: Vec<NodeDescriptor>,
}

impl View for MemoryRegistry {
    type V = Seq<NodeDescriptorView>;

    closed spec fn view(&self) -> Seq<NodeDescriptorView> {
        node_views(self.nodes@)
    }
}

impl MemoryRegistry {
    #[verifier::type_invariant]
    spec fn ordered(&self) -> bool {
        sorted_by_id(node_views(self.nodes@))
    }

    pub fn new() -> (r: Self)
        ensures
            r@.len() == 0,
    {
        let r = MemoryRegistry { nodes: Vec::new() };
        assert(node_views(r.nodes@) =~= Seq::<NodeDescriptorView>::empty());
        r
    }

    /// Inserts `node`, or replaces the entry with the same `node_id`.
    pub fn upsert(&mut self, node: NodeDescriptor) -> (r: Result<(), RegistryError>)
        ensures
            r is Ok,
            sorted_by_id(final(self)@),
            forall|x: NodeDescriptorView| #[trigger] final(self)@.contains(x) <==> after_upsert(old(self)@, node@, x),
    {
        proof {
            use_type_invariant(&*self);
        }
        let ghost pre = self@;
        let n = self.nodes.len();
        let mut p: usize = 0;
        while p < n && str_lt(self.nodes[p].node_id.as_str(), node.node_id.as_str())
            invariant
                n == self.nodes.len(),
                pre == self@,
                sorted_by_id(pre),
                p <= n,
                forall|j: int| 0 <= j < p ==> seq_lt(#[trigger] pre[j].node_id, node@.node_id),
            decreases n - p,
        {
            p = p + 1;
        }
        // Every entry from `p` on has an id not below the new one.
        assert forall|j: int| p <= j < n implies !seq_lt(#[trigger] pre[j].node_id, node@.node_id) by {
            if p < n && j > p {
                lemma_seq_lt_order(pre[p as int].node_id, pre[j].node_id, node@.node_id);
            }
        }
        let ghost nv = node@;
        if p < n && self.nodes[p].node_id == node.node_id {
            assert(pre[p as int].node_id == self.nodes@[p as int].node_id@);
            let mut nodes: Vec<NodeDescriptor> = Vec::new();
            std::mem::swap(&mut nodes, &mut self.nodes);
            nodes.set(p, node);
            proof {
                let post = node_views(nodes@);
                assert(post =~= pre.update(p as int, nv));
                assert(nv.node_id == pre[p as int].node_id);
                assert forall|i: int, j: int| 0 <= i < j < post.len() implies seq_lt(
                    post[i].node_id,
                    post[j].node_id,
                ) by {
                    assert(post[i].node_id == pre[i].node_id);
                    assert(post[j].node_id == pre[j].node_id);
                }
                assert forall|x: NodeDescriptorView| #[trigger] post.contains(x) <==> after_upsert(pre, nv, x) by {
                    if post.contains(x) {
                        let k = choose|k: int| 0 <= k < post.len() && post[k] == x;
                        if k != p {
                            assert(pre[k] == x);
                            lemma_seq_lt_order(pre[k].node_id, pre[p as int].node_id, pre[k].node_id);
                        }
                    }
                    if after_upsert(pre, nv, x) {
                        if x == nv {
                            assert(post[p as int] == x);
                        } else {
                            let k = choose|k: int| 0 <= k < pre.len() && pre[k] == x;
                            assert(k != p);
                            assert(post[k] == x);
                        }
                    }
                }
            }
            self.nodes = nodes;
        } else {
            let mut nodes: Vec<NodeDescriptor> = Vec::new();
            std::mem::swap(&mut nodes, &mut self.nodes);
            nodes.insert(p, node);
            proof {
                let post = node_views(nodes@);
                assert(post =~= pre.insert(p as int, nv));
                assert forall|j: int| p <= j < n implies seq_lt(nv.node_id, #[trigger] pre[j].node_id) by {
                    lemma_seq_lt_order(nv.node_id, pre[j].node_id, nv.node_id);
                    if j == p {
                        assert(pre[j].node_id != nv.node_id);
                    } else {
                        lemma_seq_lt_order(pre[p as int].node_id, pre[j].node_id, nv.node_id);
                        lemma_seq_lt_order(nv.node_id, pre[p as int].node_id, pre[j].node_id);
                        assert(pre[p as int].node_id != nv.node_id);
                    }
                }
                assert forall|i: int, j: int| 0 <= i < j < post.len() implies seq_lt(
                    post[i].node_id,
                    post[j].node_id,
                ) by {
                    if i < p && j == p {
                    } else if i < p && j > p {
                        lemma_seq_lt_order(pre[i].node_id, nv.node_id, pre[j - 1].node_id);
                    } else if i == p {
                    } else {
                    }
                }
                assert forall|x: NodeDescriptorView| #[trigger] post.contains(x) <==> after_upsert(pre, nv, x) by {
                    if post.contains(x) {
                        let k = choose|k: int| 0 <= k < post.len() && post[k] == x;
                        if k < p {
                            assert(pre[k] == x);
                            lemma_seq_lt_order(pre[k].node_id, nv.node_id, pre[k].node_id);
                        } else if k > p {
                            assert(pre[k - 1] == x);
                            lemma_seq_lt_order(nv.node_id, pre[k - 1].node_id, nv.node_id);
                        }
                    }
                    if after_upsert(pre, nv, x) {
                        if x == nv {
                            assert(post[p as int] == x);
                        } else {
                            let k = choose|k: int| 0 <= k < pre.len() && pre[k] == x;
                            if k < p {
                                assert(post[k] == x);
                            } else {
                                assert(post[k + 1] == x);
                            }
                        }
                    }
                }
            }
            self.nodes = nodes;
        }
        Ok(())
    }

    /// All registered nodes, ordered by `node_id`.
    pub fn list(&self) -> (r: Result<Vec<NodeDescriptor>, RegistryError>)
        ensures
            r matches Ok(v) && node_views(v@) == self@,
            sorted_by_id(self@),
    {
        proof {
            use_type_invariant(self);
        }
        Ok(copy_nodes(&self.nodes))
    }
}

/// Two registries ordered by `node_id` that hold the same entries list them in
/// the same order: what a registry lists is determined by its contents.
pub proof fn lemma_listing_determined_by_contents(a: Seq<NodeDescriptorView>, b: Seq<NodeDescriptorView>)
    requires
        sorted_by_id(a),
        sorted_by_id(b),
        forall|x: NodeDescriptorView| #![trigger a.contains(x)] #![trigger b.contains(x)] a.contains(x) <==> b.contains(x),
    ensures
        a == b,
    decreases a.len() + b.len(),
{
    if a.len() == 0 || b.len() == 0 {
        if a.len() > 0 {
            assert(a.contains(a[0]));
        }
        if b.len() > 0 {
            assert(b.contains(b[0]));
        }
        assert(a =~= b);
    } else {
        assert(a.contains(a[0]));
        assert(b.contains(b[0]));
        let i = choose|i: int| 0 <= i < b.len() && b[i] == a[0];
        let j = choose|j: int| 0 <= j < a.len() && a[j] == b[0];
        if i > 0 {
            assert(seq_lt(b[0].node_id, b[i].node_id));
            if j > 0 {
                assert(seq_lt(a[0].node_id, a[j].node_id));
                lemma_seq_lt_order(a[0].node_id, b[0].node_id, a[0].node_id);
            }
            lemma_seq_lt_order(b[0].node_id, b[0].node_id, b[0].node_id);
        }
        assert(i == 0) by {
            if i > 0 {
                if j > 0 {
                    lemma_seq_lt_order(a[0].node_id, a[j].node_id, a[0].node_id);
                } else {
                    lemma_seq_lt_order(b[0].node_id, b[0].node_id, b[0].node_id);
                }
            }
        }
        let a1 = a.drop_first();
        let b1 = b.drop_first();
        assert forall|x: NodeDescriptorView| #![trigger a1.contains(x)] #![trigger b1.contains(x)] a1.contains(x) <==> b1.contains(x) by {
            if a1.contains(x) {
                let k = choose|k: int| 0 <= k < a1.len() && a1[k] == x;
                assert(a.contains(x) && a[k + 1] == x);
                let m = choose|m: int| 0 <= m < b.len() && b[m] == x;
                if m == 0 {
                    lemma_seq_lt_order(a[0].node_id, a[k + 1].node_id, a[0].node_id);
                }
                assert(b1[m - 1] == x);
            }
            if b1.contains(x) {
                let k = choose|k: int| 0 <= k < b1.len() && b1[k] == x;
                assert(b.contains(x) && b[k + 1] == x);
                let m = choose|m: int| 0 <= m < a.len() && a[m] == x;
                if m == 0 {
                    lemma_seq_lt_order(b[0].node_id, b[k + 1].node_id, b[0].node_id);
                }
                assert(a1[m - 1] == x);
            }
        }
        lemma_listing_determined_by_contents(a1, b1);
        assert(a =~= seq![a[0]] + a1);
        assert(b =~= seq![b[0]] + b1);
    }
}

/// Registering the same node twice leaves one entry, the latest: the
/// registry is the same as after registering only the second descriptor.
pub proof fn lemma_reregistration_refreshes(
    s: Seq<NodeDescriptorView>,
    first: Seq<NodeDescriptorView>,
    second: Seq<NodeDescriptorView>,
    only: Seq<NodeDescriptorView>,
    a: NodeDescriptorView,
    b: NodeDescriptorView,
)
    requires
        a.node_id == b.node_id,
        sorted_by_id(first),
        sorted_by_id(second),
        sorted_by_id(only),
        forall|x: NodeDescriptorView| #[trigger] first.contains(x) <==> after_upsert(s, a, x),
        forall|x: NodeDescriptorView| #[trigger] second.contains(x) <==> after_upsert(first, b, x),
        forall|x: NodeDescriptorView| #[trigger] only.contains(x) <==> after_upsert(s, b, x),
    ensures
        second == only,
{
    assert forall|x: NodeDescriptorView| #![trigger second.contains(x)] #![trigger only.contains(x)] second.contains(x) <==> only.contains(x) by {
        if second.contains(x) {
            assert(after_upsert(first, b, x));
            if x != b {
                assert(first.contains(x));
                assert(after_upsert(s, a, x));
            }
        }
        if only.contains(x) {
            if x != b {
                assert(after_upsert(s, a, x));
                assert(first.contains(x));
            }
        }
    }
    lemma_listing_determined_by_contents(second, only);
}

} // verus!
