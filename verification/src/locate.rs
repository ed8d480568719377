//! Controller discovery and leader election over a known peer list, and the
//! node's decisions on each heartbeat: follow the elected leader, promote
//! itself when no controller answers, and step down when a better controller
//! shows up.
//!
//! The leader is the reachable controller that started earliest, then the one
//! answering fastest, with the URL as a final tiebreak so every observer
//! converges on the same choice.

use vstd::prelude::*;
use crate::proto::StatusResponse;
use crate::text::{lemma_seq_lt_order, seq_lt, str_lt, trim_slashes, trim_trailing_slashes, views};

verus! {

/// A reachable controller and what probing it revealed.
#[derive(Debug, PartialEq, Eq)]
pub struct Candidate {
    /// Normalized base URL (no trailing slash).
    pub url: String,
    pub status: StatusResponse,
    /// Round-trip latency of the `/status` probe, in milliseconds.
    pub latency_ms: u64,
}

pub struct CandidateView {
    pub url: Seq<char>,
    pub status: StatusResponse,
    pub latency_ms: u64,
}

impl View for Candidate {
    type V = CandidateView;

    open spec fn view(&self) -> CandidateView {
        CandidateView { url: self.url@, status: self.status, latency_ms: self.latency_ms }
    }
}

impl Clone for Candidate {
    fn clone(&self) -> (r: Self)
        ensures
            r == *self,
    {
        Candidate { url: self.url.clone(), status: self.status, latency_ms: self.latency_ms }
    }
}

/// `a` ranks strictly before `b` in the election: earlier start, then lower
/// latency, then smaller URL.
pub open spec fn key_lt(a: CandidateView, b: CandidateView) -> bool {
    ||| a.status.start_epoch < b.status.start_epoch
    ||| a.status.start_epoch == b.status.start_epoch && a.latency_ms < b.latency_ms
    ||| a.status.start_epoch == b.status.start_epoch && a.latency_ms == b.latency_ms && seq_lt(
        a.url,
        b.url,
    )
}

/// `a` and `b` tie on everything the election looks at.
pub open spec fn same_key(a: CandidateView, b: CandidateView) -> bool {
    a.status.start_epoch == b.status.start_epoch && a.latency_ms == b.latency_ms && a.url == b.url
}

proof fn lemma_key_order(a: CandidateView, b: CandidateView, c: CandidateView)
    ensures
        !key_lt(a, a),
        key_lt(a, b) ==> !key_lt(b, a),
        key_lt(a, b) && key_lt(b, c) ==> key_lt(a, c),
        !key_lt(a, b) && !key_lt(b, a) ==> same_key(a, b),
        same_key(a, b) ==> (key_lt(a, c) == key_lt(b, c)) && (key_lt(c, a) == key_lt(c, b)),
{
    lemma_seq_lt_order(a.url, b.url, c.url);
    lemma_seq_lt_order(a.url, c.url, b.url);
    lemma_seq_lt_order(b.url, a.url, c.url);
    lemma_seq_lt_order(c.url, a.url, b.url);
}

/// Position `i` holds the leader of `s`: nobody ranks before it, and it ranks
/// strictly before every earlier entry (so among ties the first one wins).
pub open spec fn elected(s: Seq<CandidateView>, i: int) -> bool {
    &&& 0 <= i < s.len()
    &&& forall|j: int| 0 <= j < s.len() ==> !key_lt(#[trigger] s[j], s[i])
    &&& forall|j: int| 0 <= j < i ==> key_lt(s[i], #[trigger] s[j])
}

pub open spec fn candidate_views(v: Seq<Candidate>) -> Seq<CandidateView> {
    v.map_values(|c: Candidate| c@)
}

fn ranks_before(a: &Candidate, b: &Candidate) -> (r: bool)
    ensures
        r == key_lt(a@, b@),
{
    let ka = a.status.election_key(a.latency_ms);
    let kb = b.status.election_key(b.latency_ms);
    if ka.0 != kb.0 {
        ka.0 < kb.0
    } else if ka.1 != kb.1 {
        ka.1 < kb.1
    } else {
        str_lt(a.url.as_str(), b.url.as_str())
    }
}

/// The leader among reachable candidates, or `None` when none is reachable.
pub fn elect(candidates: Vec<Candidate>) -> (r: Option<Candidate>)
    ensures
        r is None <==> candidates.len() == 0,
        r matches Some(c) ==> exists|i: int|
            elected(candidate_views(candidates@), i) && c == #[trigger] candidates@[i],
{
    let ghost s = candidate_views(candidates@);
    let n = candidates.len();
    if n == 0 {
        return None;
    }
    let mut best: usize = 0;
    let mut j: usize = 1;
    proof {
        lemma_key_order(s[0], s[0], s[0]);
    }
    while j < n
        invariant
            n == candidates.len(),
            s == candidate_views(candidates@),
            best < j <= n,
            forall|k: int| 0 <= k < j ==> !key_lt(#[trigger] s[k], s[best as int]),
            forall|k: int| 0 <= k < best ==> key_lt(s[best as int], #[trigger] s[k]),
        decreases n - j,
    {
        if ranks_before(&candidates[j], &candidates[best]) {
            proof {
                assert forall|k: int| 0 <= k < j implies key_lt(s[j as int], #[trigger] s[k]) by {
                    lemma_key_order(s[j as int], s[best as int], s[k]);
                    lemma_key_order(s[best as int], s[k], s[j as int]);
                    if !key_lt(s[best as int], s[k]) {
                        assert(same_key(s[best as int], s[k]));
                    }
                }
                assert forall|k: int| 0 <= k < j + 1 implies !key_lt(#[trigger] s[k], s[j as int]) by {
                    lemma_key_order(s[k], s[j as int], s[k]);
                }
            }
            best = j;
        } else {
            proof {
                lemma_key_order(s[j as int], s[best as int], s[j as int]);
            }
        }
        j = j + 1;
    }
    let c = candidates[best].clone();
    assert(c == candidates@[best as int]);
    Some(c)
}

/// Any two observers that reach the same controllers elect the same leader:
/// the winner's start time, latency and URL do not depend on the order in
/// which candidates answered.
pub proof fn lemma_election_converges(a: Seq<CandidateView>, b: Seq<CandidateView>, i: int, j: int)
    requires
        elected(a, i),
        elected(b, j),
        forall|x: int| 0 <= x < a.len() ==> b.contains(#[trigger] a[x]),
        forall|y: int| 0 <= y < b.len() ==> a.contains(#[trigger] b[y]),
    ensures
        same_key(a[i], b[j]),
{
    assert(b.contains(a[i]));
    assert(a.contains(b[j]));
    let y = choose|y: int| 0 <= y < b.len() && b[y] == a[i];
    let x = choose|x: int| 0 <= x < a.len() && a[x] == b[j];
    assert(!key_lt(b[y], b[j]));
    assert(!key_lt(a[x], a[i]));
    lemma_key_order(a[i], b[j], a[i]);
}

/// `(remote_epoch, remote_url) < (my_epoch, my_url)`.
pub open spec fn outranks(remote_epoch: u64, remote_url: Seq<char>, my_epoch: u64, my_url: Seq<char>) -> bool {
    remote_epoch < my_epoch || (remote_epoch == my_epoch && seq_lt(remote_url, my_url))
}

/// Should a self-promoted controller (`my_epoch`, `my_url`) step down for
/// `remote`? Compared by start time and URL only — not latency, which every
/// observer measures as smallest for itself.
pub fn remote_outranks_self(remote: &Candidate, my_epoch: u64, my_url: &str) -> (r: bool)
    ensures
        r == outranks(remote.status.start_epoch, remote.url@, my_epoch, my_url@),
{
    if remote.status.start_epoch != my_epoch {
        remote.status.start_epoch < my_epoch
    } else {
        str_lt(remote.url.as_str(), my_url)
    }
}

/// Two distinct controllers that see each other never both keep leadership
/// nor both yield: exactly one outranks the other, and none outranks itself.
pub proof fn lemma_exactly_one_steps_down(e1: u64, u1: Seq<char>, e2: u64, u2: Seq<char>)
    ensures
        !outranks(e1, u1, e1, u1),
        (e1, u1) != (e2, u2) ==> outranks(e1, u1, e2, u2) != outranks(e2, u2, e1, u1),
{
    lemma_seq_lt_order(u1, u2, u1);
}

// ── the node's heartbeat decisions ──────────────────────────────────────────

/// The known peer list: the explicit peers, or the single controller URL when
/// none is given, each without trailing slashes.
pub open spec fn peer_list(peers: Seq<Seq<char>>, controller: Seq<char>) -> Seq<Seq<char>> {
    if peers.len() == 0 {
        seq![trim_slashes(controller)]
    } else {
        peers.map_values(|p: Seq<char>| trim_slashes(p))
    }
}

pub fn resolve_peers(peers: &Vec<String>, controller: &String) -> (r: Vec<String>)
    ensures
        views(r@) == peer_list(views(peers@), controller@),
        r.len() >= 1,
{
    let mut out: Vec<String> = Vec::new();
    if peers.len() == 0 {
        out.push(trim_trailing_slashes(controller.as_str()));
        assert(views(out@) =~= peer_list(views(peers@), controller@));
        return out;
    }
    let mut i: usize = 0;
    while i < peers.len()
        invariant
            i <= peers.len(),
            out.len() == i,
            forall|j: int| 0 <= j < i ==> (#[trigger] out@[j])@ == trim_slashes(peers@[j]@),
        decreases peers.len() - i,
    {
        out.push(trim_trailing_slashes(peers[i].as_str()));
        i = i + 1;
    }
    assert(views(out@) =~= peer_list(views(peers@), controller@));
    out
}

/// Where a controller answers its status probe.
pub fn status_url(base: &str) -> (r: String)
    ensures
        r@ == base@ + "/status"@,
{
    crate::text::concat2(base, "/status")
}

/// Where a node posts its registration.
pub fn register_url(base: &str) -> (r: String)
    ensures
        r@ == base@ + "/register"@,
{
    crate::text::concat2(base, "/register")
}

/// Where a node first sends its registration.
#[derive(Debug, PartialEq, Eq)]
pub enum FirstRoute {
    /// A leader answered: follow it.
    Follow(String),
    /// Nobody answered and this box may host a controller: start one here.
    Promote,
    /// Nobody answered and promotion is disabled: keep trying the first peer.
    Fallback(String),
}

pub fn first_route(leader: Option<&Candidate>, eligible: bool, peers: &Vec<String>) -> (r: FirstRoute)
    requires
        peers.len() >= 1,
    ensures
        match leader {
            Some(l) => r matches FirstRoute::Follow(u) && u@ == l.url@,
            None => if eligible {
                r is Promote
            } else {
                r matches FirstRoute::Fallback(u) && u@ == peers@[0]@
            },
        },
{
    match leader {
        Some(l) => FirstRoute::Follow(l.url.clone()),
        None => if eligible {
            FirstRoute::Promote
        } else {
            FirstRoute::Fallback(peers[0].clone())
        },
    }
}

/// What a node does after a heartbeat's discovery round.
#[derive(Debug, PartialEq, Eq)]
pub enum Heartbeat {
    /// Nothing changes.
    Keep,
    /// This node's own controller yields to an older one and follows it.
    StepDown,
    /// The elected leader moved; follow it.
    Follow,
    /// No controller answered: start one here.
    Promote,
}

/// Which controller a node registers with, and whether that controller is the
/// one it started itself (and when).
#[derive(Debug, PartialEq, Eq)]
pub struct NodeRole {
    pub controller_url: String,
    pub promoted: bool,
    pub my_epoch: u64,
}

impl NodeRole {
    /// A node registering with the controller at `url`.
    pub fn following(url: String) -> (r: Self)
        ensures
            r.controller_url == url,
            !r.promoted,
            r.my_epoch == 0,
    {
        NodeRole { controller_url: url, promoted: false, my_epoch: 0 }
    }

    /// This node now hosts the controller at `url`, started at `epoch`.
    pub fn promoted_to(&mut self, url: String, epoch: u64)
        ensures
            final(self).controller_url == url,
            final(self).promoted,
            final(self).my_epoch == epoch,
    {
        self.controller_url = url;
        self.promoted = true;
        self.my_epoch = epoch;
    }

    /// One heartbeat: given the leader this round's discovery elected (if
    /// any), decide what changes. A self-promoted controller steps down only
    /// for a controller that strictly outranks it; a plain node follows the
    /// leader wherever it moves; a node with no reachable controller promotes
    /// itself when allowed.
    pub fn on_heartbeat(&mut self, leader: Option<&Candidate>, eligible: bool, advertise_self: &str) -> (r: Heartbeat)
        ensures
            match leader {
                Some(l) => if old(self).promoted {
                    if outranks(l.status.start_epoch, l.url@, old(self).my_epoch, advertise_self@) {
                        &&& r is StepDown
                        &&& final(self).controller_url@ == l.url@
                        &&& !final(self).promoted
                        &&& final(self).my_epoch == old(self).my_epoch
                    } else {
                        r is Keep && *final(self) == *old(self)
                    }
                } else if l.url@ != old(self).controller_url@ {
                    &&& r is Follow
                    &&& final(self).controller_url@ == l.url@
                    &&& final(self).promoted == old(self).promoted
                    &&& final(self).my_epoch == old(self).my_epoch
                } else {
                    r is Keep && *final(self) == *old(self)
                },
                None => {
                    &&& *final(self) == *old(self)
                    &&& (r is Promote <==> (!old(self).promoted && eligible))
                    &&& (r is Keep <==> !(!old(self).promoted && eligible))
                },
            },
    {
        match leader {
            Some(l) => {
                if self.promoted {
                    if remote_outranks_self(l, self.my_epoch, advertise_self) {
                        self.promoted = false;
                        self.controller_url = l.url.clone();
                        Heartbeat::StepDown
                    } else {
                        Heartbeat::Keep
                    }
                } else if !crate::text::str_eq(l.url.as_str(), self.controller_url.as_str()) {
                    self.controller_url = l.url.clone();
                    Heartbeat::Follow
                } else {
                    Heartbeat::Keep
                }
            },
            None => {
                if !self.promoted && eligible {
                    Heartbeat::Promote
                } else {
                    Heartbeat::Keep
                }
            },
        }
    }
}

/// How many times a node tries its first registration before serving anyway.
pub const REGISTER_ATTEMPTS: u32 = 5;

/// After a failed registration attempt (counted from 1), whether to try again.
pub fn retry_registration(attempt: u32) -> (r: bool)
    ensures
        r == (attempt < REGISTER_ATTEMPTS),
{
    attempt < REGISTER_ATTEMPTS
}

} // verus!
