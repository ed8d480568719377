//! Dependency graphs over stage indices: each stage lists the indices of the
//! stages it depends on. A graph is ranked when every stage can be placed
//! after all its dependencies; a depth-first search either finds such a
//! ranking or a stage from which the dependencies lead back to itself.

use vstd::prelude::*;

verus! {

/// The index lists of resolved dependencies.
pub open spec fn dep_views(deps: Seq<Vec<usize>>) -> Seq<Seq<usize>> {
    deps.map_values(|d: Vec<usize>| d@)
}

/// Every resolved dependency index is in range.
pub open spec fn deps_in_range(deps: Seq<Seq<usize>>) -> bool {
    forall|i: int, k: int|
        0 <= i < deps.len() && 0 <= k < deps[i].len() ==> #[trigger] deps[i][k] < deps.len()
}

/// `rank` puts every stage after each of its dependencies (by index).
pub open spec fn index_ranked(deps: Seq<Seq<usize>>, rank: Seq<nat>) -> bool {
    &&& rank.len() == deps.len()
    &&& forall|i: int, k: int|
        0 <= i < deps.len() && 0 <= k < deps[i].len() ==> rank[#[trigger] deps[i][k] as int]
            < rank[i]
}

/// Among the indices satisfying `p`, one of least `f`.
pub(crate) proof fn lemma_least(p: spec_fn(int) -> bool, f: spec_fn(int) -> nat, w: int) -> (m: int)
    requires
        p(w),
    ensures
        p(m),
        forall|j: int| #[trigger] p(j) ==> f(m) <= f(j),
    decreases f(w),
{
    if exists|j: int| #[trigger] p(j) && f(j) < f(w) {
        let j = choose|j: int| #[trigger] p(j) && f(j) < f(w);
        lemma_least(p, f, j)
    } else {
        w
    }
}

/// Stage `j` is among the resolved dependencies of stage `i`.
pub open spec fn dep_edge(deps: Seq<Seq<usize>>, i: int, j: int) -> bool {
    exists|k: int| 0 <= k < deps[i].len() && deps[i][k] == j
}

/// The `k`-th stage of `p` is a stage that depends on the next one.
pub open spec fn index_link(deps: Seq<Seq<usize>>, p: Seq<int>, k: int) -> bool {
    0 <= p[k] < deps.len() && dep_edge(deps, p[k], p[k + 1])
}

/// Following dependencies from stage `d` leads back to `d`.
pub open spec fn index_cycle(deps: Seq<Seq<usize>>, d: int) -> bool {
    exists|p: Seq<int>|
        p.len() >= 2 && p[0] == d && p.last() == d && forall|k: int|
            0 <= k < p.len() - 1 ==> #[trigger] index_link(deps, p, k)
}

// ── the depth-first search for cycles ───────────────────────────────────────

/// A stage's colour in the search: entered and not yet left (its
/// dependencies are being explored), or left with every dependency explored.
#[derive(Clone, Copy, PartialEq, Eq, Structural)]
enum Mark {
    Grey,
    Black,
}

/// The number of "leaving" entries among the first `q` entries of the stack.
spec fn exits(st: Seq<(usize, bool)>, q: nat) -> nat
    decreases q,
{
    if q == 0 {
        0
    } else {
        exits(st, (q - 1) as nat) + if st[q - 1].1 {
            1nat
        } else {
            0nat
        }
    }
}

proof fn lemma_exits_agree(a: Seq<(usize, bool)>, b: Seq<(usize, bool)>, q: nat)
    requires
        q <= a.len(),
        q <= b.len(),
        forall|j: int| 0 <= j < q ==> a[j] == b[j],
    ensures
        exits(a, q) == exits(b, q),
    decreases q,
{
    if q > 0 {
        lemma_exits_agree(a, b, (q - 1) as nat);
    }
}

proof fn lemma_exits_mono(st: Seq<(usize, bool)>, a: nat, b: nat)
    requires
        a <= b,
    ensures
        exits(st, a) <= exits(st, b),
    decreases b,
{
    if a < b {
        lemma_exits_mono(st, a, (b - 1) as nat);
    }
}

/// The number of stages with colour `m`.
spec fn count_marks(mk: Seq<Option<Mark>>, m: Option<Mark>) -> nat
    decreases mk.len(),
{
    if mk.len() == 0 {
        0
    } else {
        count_marks(mk.drop_last(), m) + if mk.last() == m {
            1nat
        } else {
            0nat
        }
    }
}

proof fn lemma_count_marks_update(mk: Seq<Option<Mark>>, i: int, v: Option<Mark>, m: Option<Mark>)
    requires
        0 <= i < mk.len(),
    ensures
        count_marks(mk.update(i, v), m) + (if mk[i] == m {
            1int
        } else {
            0int
        }) == count_marks(mk, m) + (if v == m {
            1int
        } else {
            0int
        }),
    decreases mk.len(),
{
    let t = mk.update(i, v);
    if i == mk.len() - 1 {
        assert(t.drop_last() =~= mk.drop_last());
    } else {
        assert(t.drop_last() =~= mk.drop_last().update(i, v));
        lemma_count_marks_update(mk.drop_last(), i, v, m);
    }
}

/// Stage `j` is on the grey path.
spec fn on_path(path: Seq<usize>, j: int) -> bool {
    exists|a: int| 0 <= a < path.len() && path[a] == j
}

/// The `k`-th dependency of the stage left by stack entry `q` is done, or it
/// still has an entry higher on the stack.
spec fn covered(dv: Seq<Seq<usize>>, st: Seq<(usize, bool)>, mk: Seq<Option<Mark>>, q: int, k: int) -> bool {
    let d = dv[st[q].0 as int][k];
    mk[d as int] == Some(Mark::Black) || exists|q2: int| q < q2 < st.len() && st[q2].0 == d
}

/// Every "leaving" entry below position `upto` has all its dependencies
/// covered.
#[verifier::opaque]
spec fn all_covered(dv: Seq<Seq<usize>>, st: Seq<(usize, bool)>, mk: Seq<Option<Mark>>, upto: int) -> bool {
    forall|q: int, k: int|
        0 <= q < upto && q < st.len() && st[q].1 && 0 <= k < dv[st[q].0 as int].len() ==> #[trigger] covered(
            dv,
            st,
            mk,
            q,
            k,
        )
}

/// The `k`-th stage on the grey path depends on the next.
spec fn path_link(dv: Seq<Seq<usize>>, path: Seq<usize>, k: int) -> bool {
    dep_edge(dv, path[k] as int, path[k + 1] as int)
}

/// The search's state hangs together. `st` is the stack of (stage, leaving)
/// entries; `path` lists the grey stages in the order they were entered,
/// which is the order of their "leaving" entries on the stack, each
/// depending on the next; a pending entry is for a dependency of the grey
/// stage below it; black stages have only black dependencies, all finished
/// (ranked) before them; and a stale entry for a grey stage lies below that
/// stage's "leaving" entry.
#[verifier::opaque]
spec fn search_inv(
    dv: Seq<Seq<usize>>,
    st: Seq<(usize, bool)>,
    mk: Seq<Option<Mark>>,
    path: Seq<usize>,
    rank: Seq<nat>,
    count: nat,
) -> bool {
    let n = dv.len();
    &&& deps_in_range(dv)
    &&& mk.len() == n
    &&& rank.len() == n
    &&& forall|q: int| 0 <= q < st.len() ==> (#[trigger] st[q]).0 < n
    &&& path.len() == exits(st, st.len())
    &&& forall|q: int|
        0 <= q < st.len() && (#[trigger] st[q]).1 ==> st[q].0 == path[exits(st, q as nat) as int]
    &&& forall|q: int|
        0 <= q < st.len() && !(#[trigger] st[q]).1 ==> if exits(st, q as nat) == 0 {
            q == 0
        } else {
            dep_edge(dv, path[exits(st, q as nat) - 1] as int, st[q].0 as int)
        }
    &&& forall|k: int| 0 <= k < path.len() ==> #[trigger] path[k] < n
    &&& forall|k: int| 0 <= k < path.len() - 1 ==> #[trigger] path_link(dv, path, k)
    &&& forall|a: int, b: int| 0 <= a < b < path.len() ==> path[a] != path[b]
    &&& forall|j: int|
        #![trigger mk[j]]
        #![trigger on_path(path, j)]
        0 <= j < n ==> (mk[j] == Some(Mark::Grey) <==> on_path(path, j))
    &&& forall|j: int, k: int|
        0 <= j < n && mk[j] == Some(Mark::Black) && 0 <= k < dv[j].len() ==> mk[#[trigger] dv[j][k] as int]
            == Some(Mark::Black) && rank[dv[j][k] as int] < rank[j]
    &&& forall|j: int| 0 <= j < n && #[trigger] mk[j] == Some(Mark::Black) ==> rank[j] < count
    &&& forall|q: int|
        0 <= q < st.len() && !(#[trigger] st[q]).1 && mk[st[q].0 as int] == Some(Mark::Grey) ==> exists|q2: int|
            q < q2 < st.len() && st[q2] == (st[q].0, true)
}

/// What the search relies on from its state, besides the steps below.
proof fn lemma_search_basics(
    dv: Seq<Seq<usize>>,
    st: Seq<(usize, bool)>,
    mk: Seq<Option<Mark>>,
    path: Seq<usize>,
    rank: Seq<nat>,
    count: nat,
)
    requires
        search_inv(dv, st, mk, path, rank, count),
    ensures
        deps_in_range(dv),
        mk.len() == dv.len(),
        rank.len() == dv.len(),
        forall|q: int| 0 <= q < st.len() ==> (#[trigger] st[q]).0 < dv.len(),
        st.len() == 0 ==> path.len() == 0,
        st.len() == 0 ==> forall|j: int| 0 <= j < mk.len() ==> mk[j] != Some(Mark::Grey),
{
    reveal(search_inv);
    if st.len() == 0 {
        assert forall|j: int| 0 <= j < mk.len() implies mk[j] != Some(Mark::Grey) by {
            if mk[j] == Some(Mark::Grey) {
                assert(on_path(path, j));
            }
        }
    }
}

/// The search starts with every stage white and nothing on the stack.
proof fn lemma_search_start(dv: Seq<Seq<usize>>, mk: Seq<Option<Mark>>, rank: Seq<nat>)
    requires
        deps_in_range(dv),
        mk.len() == dv.len(),
        rank.len() == dv.len(),
        forall|j: int| 0 <= j < mk.len() ==> mk[j] is None,
    ensures
        search_inv(dv, Seq::empty(), mk, Seq::empty(), rank, 0),
{
    reveal(search_inv);
}

/// Starting from a white root: its entry alone on the stack.
proof fn lemma_search_root(
    dv: Seq<Seq<usize>>,
    mk: Seq<Option<Mark>>,
    path: Seq<usize>,
    rank: Seq<nat>,
    count: nat,
    root: usize,
)
    requires
        search_inv(dv, Seq::empty(), mk, path, rank, count),
        root < dv.len(),
        mk[root as int] is None,
    ensures
        search_inv(dv, seq![(root, false)], mk, path, rank, count),
        all_covered(dv, seq![(root, false)], mk, 1),
{
    reveal(search_inv);
    reveal(all_covered);
    let st = seq![(root, false)];
    assert(exits(st, 0) == 0);
    assert(exits(st, 1) == 0);
    assert(exits(Seq::<(usize, bool)>::empty(), 0) == 0);
}

/// When every stage is black, finishing order ranks the graph.
proof fn lemma_search_done(
    dv: Seq<Seq<usize>>,
    st: Seq<(usize, bool)>,
    mk: Seq<Option<Mark>>,
    path: Seq<usize>,
    rank: Seq<nat>,
    count: nat,
)
    requires
        search_inv(dv, st, mk, path, rank, count),
        forall|j: int| 0 <= j < dv.len() ==> mk[j] == Some(Mark::Black),
    ensures
        index_ranked(dv, rank),
{
    reveal(search_inv);
    assert forall|i: int, k: int| 0 <= i < dv.len() && 0 <= k < dv[i].len() implies rank[#[trigger] dv[i][k] as int]
        < rank[i] by {
        assert(mk[i] == Some(Mark::Black));
    }
}

/// Popping a stage's "leaving" entry: the stage is the last on the grey path,
/// all its dependencies are black, and it turns black, finishing last.
proof fn lemma_search_leave(
    dv: Seq<Seq<usize>>,
    st: Seq<(usize, bool)>,
    mk: Seq<Option<Mark>>,
    path: Seq<usize>,
    rank: Seq<nat>,
    count: nat,
)
    requires
        search_inv(dv, st, mk, path, rank, count),
        all_covered(dv, st, mk, st.len() as int),
        st.len() > 0,
        st.last().1,
    ensures
        ({
            let x = st.last().0;
            let mk2 = mk.update(x as int, Some(Mark::Black));
            &&& x < dv.len()
            &&& mk[x as int] == Some(Mark::Grey)
            &&& path.len() > 0 && path.last() == x
            &&& search_inv(dv, st.drop_last(), mk2, path.drop_last(), rank.update(x as int, count), count + 1)
            &&& all_covered(dv, st.drop_last(), mk2, st.len() - 1)
            &&& count_marks(mk2, None) == count_marks(mk, None)
            &&& count_marks(mk2, Some(Mark::Grey)) < count_marks(mk, Some(Mark::Grey))
        }),
{
    reveal(search_inv);
    reveal(all_covered);
    let n = dv.len();
    let len = st.len();
    let top = len - 1;
    let x = st.last().0;
    let st2 = st.drop_last();
    let mk2 = mk.update(x as int, Some(Mark::Black));
    let path2 = path.drop_last();
    let rank2 = rank.update(x as int, count);
    assert(st[top].1);
    assert(x < n);
    lemma_exits_agree(st, st2, top as nat);
    assert(exits(st, len as nat) == exits(st, top as nat) + 1);
    assert(x == path[exits(st, top as nat) as int]);
    assert(path.last() == x);
    assert(on_path(path, x as int));
    assert(mk[x as int] == Some(Mark::Grey));
    assert forall|k: int| 0 <= k < dv[x as int].len() implies mk[#[trigger] dv[x as int][k] as int] == Some(
        Mark::Black,
    ) by {
        assert(covered(dv, st, mk, top, k));
    }
    assert forall|q: nat| q < st2.len() implies #[trigger] exits(st2, q) == exits(st, q) && exits(st, q) <= path2.len() by {
        lemma_exits_agree(st, st2, q);
        lemma_exits_mono(st, q, top as nat);
    }
    assert forall|q: int| 0 <= q < st2.len() && (#[trigger] st2[q]).1 implies exits(st, q as nat) < path2.len() by {
        assert(st2[q] == st[q]);
        lemma_exits_mono(st, (q + 1) as nat, top as nat);
    }
    assert forall|j: int| 0 <= j < n implies (mk2[j] == Some(Mark::Grey) <==> #[trigger] on_path(path2, j)) by {
        if on_path(path2, j) {
            let a = choose|a: int| 0 <= a < path2.len() && path2[a] == j;
            assert(path[a] == j);
            assert(path[a] != path[path.len() - 1]);
            assert(on_path(path, j));
        }
        if j != x && mk[j] == Some(Mark::Grey) {
            assert(on_path(path, j));
            let a = choose|a: int| 0 <= a < path.len() && path[a] == j;
            assert(a != path.len() - 1);
            assert(path2[a] == j);
        }
    }
    assert forall|k: int| 0 <= k < path2.len() - 1 implies #[trigger] path_link(dv, path2, k) by {
        assert(path_link(dv, path, k));
    }
    assert forall|j: int, k: int|
        0 <= j < n && mk2[j] == Some(Mark::Black) && 0 <= k < dv[j].len() implies mk2[#[trigger] dv[j][k] as int]
            == Some(Mark::Black) && rank2[dv[j][k] as int] < rank2[j] by {
        let d = dv[j][k] as int;
        assert(mk[d] == Some(Mark::Black));
    }
    assert forall|q: int|
        0 <= q < st2.len() && !(#[trigger] st2[q]).1 && mk2[st2[q].0 as int] == Some(Mark::Grey) implies exists|q2: int|
        q < q2 < st2.len() && st2[q2] == (st2[q].0, true) by {
        assert(st[q] == st2[q]);
        let q2 = choose|q2: int| q < q2 < st.len() && st[q2] == (st[q].0, true);
        assert(q2 != top);
        assert(st2[q2] == st[q2]);
    }
    assert forall|q: int, k: int|
        0 <= q < len - 1 && q < st2.len() && st2[q].1 && 0 <= k < dv[st2[q].0 as int].len() implies #[trigger] covered(
        dv,
        st2,
        mk2,
        q,
        k,
    ) by {
        assert(st[q] == st2[q]);
        assert(covered(dv, st, mk, q, k));
        let d = dv[st[q].0 as int][k];
        if mk[d as int] != Some(Mark::Black) {
            let q2 = choose|q2: int| q < q2 < st.len() && st[q2].0 == d;
            if q2 == top {
                assert(mk2[d as int] == Some(Mark::Black));
            } else {
                assert(st2[q2] == st[q2]);
            }
        }
    }
    lemma_count_marks_update(mk, x as int, Some(Mark::Black), None);
    lemma_count_marks_update(mk, x as int, Some(Mark::Black), Some(Mark::Grey));
}

/// Popping an entry for a black stage changes nothing else.
proof fn lemma_search_skip(
    dv: Seq<Seq<usize>>,
    st: Seq<(usize, bool)>,
    mk: Seq<Option<Mark>>,
    path: Seq<usize>,
    rank: Seq<nat>,
    count: nat,
)
    requires
        search_inv(dv, st, mk, path, rank, count),
        all_covered(dv, st, mk, st.len() as int),
        st.len() > 0,
        !st.last().1,
        mk[st.last().0 as int] == Some(Mark::Black),
    ensures
        search_inv(dv, st.drop_last(), mk, path, rank, count),
        all_covered(dv, st.drop_last(), mk, st.len() - 1),
{
    reveal(search_inv);
    reveal(all_covered);
    let len = st.len();
    let top = len - 1;
    let st2 = st.drop_last();
    assert(!st[top].1);
    lemma_exits_agree(st, st2, top as nat);
    assert forall|q: nat| q < st2.len() implies #[trigger] exits(st2, q) == exits(st, q) by {
        lemma_exits_agree(st, st2, q);
    }
    assert forall|q: int|
        0 <= q < st2.len() && !(#[trigger] st2[q]).1 && mk[st2[q].0 as int] == Some(Mark::Grey) implies exists|q2: int|
        q < q2 < st2.len() && st2[q2] == (st2[q].0, true) by {
        assert(st[q] == st2[q]);
        let q2 = choose|q2: int| q < q2 < st.len() && st[q2] == (st[q].0, true);
        assert(q2 != top);
        assert(st2[q2] == st[q2]);
    }
    assert forall|q: int, k: int|
        0 <= q < len - 1 && q < st2.len() && st2[q].1 && 0 <= k < dv[st2[q].0 as int].len() implies #[trigger] covered(
        dv,
        st2,
        mk,
        q,
        k,
    ) by {
        assert(st[q] == st2[q]);
        assert(covered(dv, st, mk, q, k));
        let d = dv[st[q].0 as int][k];
        if mk[d as int] != Some(Mark::Black) {
            let q2 = choose|q2: int| q < q2 < st.len() && st[q2].0 == d;
            assert(q2 != top);
            assert(st2[q2] == st[q2]);
        }
    }
}

/// The top entry, when it is not a "leaving" one, is not for a grey stage.
proof fn lemma_search_top_not_grey(
    dv: Seq<Seq<usize>>,
    st: Seq<(usize, bool)>,
    mk: Seq<Option<Mark>>,
    path: Seq<usize>,
    rank: Seq<nat>,
    count: nat,
)
    requires
        search_inv(dv, st, mk, path, rank, count),
        st.len() > 0,
        !st.last().1,
    ensures
        mk[st.last().0 as int] != Some(Mark::Grey),
{
    reveal(search_inv);
    let top = st.len() - 1;
    assert(!st[top].1);
}

/// Entering a white stage: it turns grey, its "leaving" entry takes the
/// place of the popped one, and it joins the end of the grey path.
proof fn lemma_search_enter(
    dv: Seq<Seq<usize>>,
    st: Seq<(usize, bool)>,
    mk: Seq<Option<Mark>>,
    path: Seq<usize>,
    rank: Seq<nat>,
    count: nat,
)
    requires
        search_inv(dv, st, mk, path, rank, count),
        all_covered(dv, st, mk, st.len() as int),
        st.len() > 0,
        !st.last().1,
        mk[st.last().0 as int] is None,
    ensures
        ({
            let x = st.last().0;
            let st2 = st.drop_last().push((x, true));
            let mk2 = mk.update(x as int, Some(Mark::Grey));
            &&& x < dv.len()
            &&& search_inv(dv, st2, mk2, path.push(x), rank, count)
            &&& all_covered(dv, st2, mk2, st.len() - 1)
            &&& count_marks(mk2, None) < count_marks(mk, None)
        }),
{
    reveal(search_inv);
    reveal(all_covered);
    let n = dv.len();
    let len = st.len();
    let top = len - 1;
    let x = st.last().0;
    let st2 = st.drop_last().push((x, true));
    let mk2 = mk.update(x as int, Some(Mark::Grey));
    let path2 = path.push(x);
    assert(!st[top].1);
    assert(x < n);
    assert(st2[top] == (x, true));
    assert forall|q: nat| q < st2.len() implies #[trigger] exits(st2, q) == exits(st, q) by {
        lemma_exits_agree(st, st2, q);
    }
    assert(exits(st2, len as nat) == exits(st2, top as nat) + 1);
    assert(exits(st, len as nat) == exits(st, top as nat));
    assert(path2.len() == exits(st2, st2.len()));
    assert forall|q: int| 0 <= q < st2.len() && (#[trigger] st2[q]).1 implies st2[q].0 == path2[exits(
        st2,
        q as nat,
    ) as int] by {
        if q < top {
            assert(st2[q] == st[q]);
            lemma_exits_mono(st, (q + 1) as nat, top as nat);
        }
    }
    assert forall|q: int| 0 <= q < st2.len() && !(#[trigger] st2[q]).1 implies if exits(st2, q as nat) == 0 {
        q == 0
    } else {
        dep_edge(dv, path2[exits(st2, q as nat) - 1] as int, st2[q].0 as int)
    } by {
        assert(q < top);
        assert(st2[q] == st[q]);
        lemma_exits_mono(st, q as nat, top as nat);
    }
    assert(!on_path(path, x as int)) by {
        if on_path(path, x as int) {
            assert(mk[x as int] == Some(Mark::Grey));
        }
    }
    assert forall|k: int| 0 <= k < path2.len() - 1 implies #[trigger] path_link(dv, path2, k) by {
        if k < path.len() - 1 {
            assert(path_link(dv, path, k));
        } else {
            assert(exits(st, top as nat) == path.len());
            assert(dep_edge(dv, path[exits(st, top as nat) - 1] as int, st[top].0 as int));
        }
    }
    assert forall|a: int, b: int| 0 <= a < b < path2.len() implies path2[a] != path2[b] by {
        if b == path.len() {
            assert(on_path(path, path[a] as int));
        }
    }
    assert forall|j: int| 0 <= j < n implies (mk2[j] == Some(Mark::Grey) <==> #[trigger] on_path(path2, j)) by {
        if j == x {
            assert(path2[path.len() as int] == x);
        } else {
            assert(mk[j] == Some(Mark::Grey) <==> on_path(path, j));
            if on_path(path2, j) {
                let a = choose|a: int| 0 <= a < path2.len() && path2[a] == j;
                assert(a < path.len());
                assert(path[a] == j);
            }
            if on_path(path, j) {
                let a = choose|a: int| 0 <= a < path.len() && path[a] == j;
                assert(path2[a] == j);
            }
        }
    }
    assert forall|j: int, k: int|
        0 <= j < n && mk2[j] == Some(Mark::Black) && 0 <= k < dv[j].len() implies mk2[#[trigger] dv[j][k] as int]
            == Some(Mark::Black) && rank[dv[j][k] as int] < rank[j] by {
        assert(mk[j] == Some(Mark::Black));
        assert(mk[dv[j][k] as int] == Some(Mark::Black));
    }
    assert forall|q: int|
        0 <= q < st2.len() && !(#[trigger] st2[q]).1 && mk2[st2[q].0 as int] == Some(Mark::Grey) implies exists|q2: int|
        q < q2 < st2.len() && st2[q2] == (st2[q].0, true) by {
        assert(q < top);
        assert(st2[q] == st[q]);
        if st[q].0 != x {
            let q2 = choose|q2: int| q < q2 < st.len() && st[q2] == (st[q].0, true);
            assert(q2 != top);
            assert(st2[q2] == st[q2]);
        } else {
            assert(st2[top] == (st2[q].0, true));
        }
    }
    assert forall|q: int, k: int|
        0 <= q < len - 1 && q < st2.len() && st2[q].1 && 0 <= k < dv[st2[q].0 as int].len() implies #[trigger] covered(
        dv,
        st2,
        mk2,
        q,
        k,
    ) by {
        assert(st[q] == st2[q]);
        assert(covered(dv, st, mk, q, k));
        let d = dv[st[q].0 as int][k];
        if mk[d as int] != Some(Mark::Black) {
            let q2 = choose|q2: int| q < q2 < st.len() && st[q2].0 == d;
            assert(st2[q2].0 == d);
        } else {
            assert(d != x);
        }
    }
    lemma_count_marks_update(mk, x as int, Some(Mark::Grey), None);
}

/// Past the last "leaving" entry, the count of them stays put.
proof fn lemma_exits_run(st: Seq<(usize, bool)>, xpos: int, q: nat)
    requires
        0 <= xpos < q <= st.len(),
        st[xpos].1,
        forall|j: int| xpos < j < st.len() ==> !(#[trigger] st[j]).1,
    ensures
        exits(st, q) == exits(st, xpos as nat) + 1,
    decreases q,
{
    if q > xpos + 1 {
        lemma_exits_run(st, xpos, (q - 1) as nat);
        assert(!st[q - 1].1);
    }
}

/// The stage being entered has the last "leaving" entry: it ends the grey
/// path.
proof fn lemma_search_entered_last(
    dv: Seq<Seq<usize>>,
    st: Seq<(usize, bool)>,
    mk: Seq<Option<Mark>>,
    path: Seq<usize>,
    rank: Seq<nat>,
    count: nat,
    xpos: int,
)
    requires
        search_inv(dv, st, mk, path, rank, count),
        0 <= xpos < st.len(),
        st[xpos].1,
        forall|q: int| xpos < q < st.len() ==> !(#[trigger] st[q]).1,
    ensures
        exits(st, st.len()) == exits(st, xpos as nat) + 1,
        path.len() > 0,
        path.last() == st[xpos].0,
{
    reveal(search_inv);
    lemma_exits_run(st, xpos, st.len());
}

/// Pushing an entry for a white dependency of the stage being entered.
proof fn lemma_search_push(
    dv: Seq<Seq<usize>>,
    st: Seq<(usize, bool)>,
    mk: Seq<Option<Mark>>,
    path: Seq<usize>,
    rank: Seq<nat>,
    count: nat,
    xpos: int,
    k: int,
)
    requires
        search_inv(dv, st, mk, path, rank, count),
        0 <= xpos < st.len(),
        st[xpos].1,
        forall|q: int| xpos < q < st.len() ==> !(#[trigger] st[q]).1,
        0 <= k < dv[st[xpos].0 as int].len(),
        mk[dv[st[xpos].0 as int][k] as int] is None,
        all_covered(dv, st, mk, xpos),
        forall|l: int| 0 <= l < k ==> #[trigger] covered(dv, st, mk, xpos, l),
    ensures
        ({
            let st2 = st.push((dv[st[xpos].0 as int][k], false));
            &&& search_inv(dv, st2, mk, path, rank, count)
            &&& all_covered(dv, st2, mk, xpos)
            &&& forall|l: int| 0 <= l <= k ==> #[trigger] covered(dv, st2, mk, xpos, l)
            &&& forall|q: int| xpos < q < st2.len() ==> !(#[trigger] st2[q]).1
        }),
{
    lemma_search_entered_last(dv, st, mk, path, rank, count, xpos);
    reveal(search_inv);
    reveal(all_covered);
    let n = dv.len();
    let x = st[xpos].0;
    let d = dv[x as int][k];
    let len = st.len();
    let st2 = st.push((d, false));
    assert(x < n);
    assert(d < n);
    assert(st2[len as int] == (d, false));
    assert forall|q: nat| q <= len implies #[trigger] exits(st2, q) == exits(st, q) by {
        lemma_exits_agree(st, st2, q);
    }
    assert(exits(st2, len as nat) == exits(st, len as nat));
    assert(exits(st2, (len + 1) as nat) == exits(st2, len as nat));
    assert(dep_edge(dv, x as int, d as int));
    assert forall|q: int| 0 <= q < st2.len() && (#[trigger] st2[q]).1 implies st2[q].0 == path[exits(
        st2,
        q as nat,
    ) as int] by {
        assert(q < len);
        assert(st2[q] == st[q]);
    }
    assert forall|q: int| 0 <= q < st2.len() && !(#[trigger] st2[q]).1 implies if exits(st2, q as nat) == 0 {
        q == 0
    } else {
        dep_edge(dv, path[exits(st2, q as nat) - 1] as int, st2[q].0 as int)
    } by {
        if q < len {
            assert(st2[q] == st[q]);
        } else {
            assert(exits(st2, q as nat) == path.len());
        }
    }
    assert forall|q: int|
        0 <= q < st2.len() && !(#[trigger] st2[q]).1 && mk[st2[q].0 as int] == Some(Mark::Grey) implies exists|q2: int|
        q < q2 < st2.len() && st2[q2] == (st2[q].0, true) by {
        assert(q < len);
        assert(st2[q] == st[q]);
        let q2 = choose|q2: int| q < q2 < st.len() && st[q2] == (st[q].0, true);
        assert(st2[q2] == st[q2]);
    }
    assert forall|q: int, l: int|
        0 <= q < st.len() && 0 <= l < dv[st[q].0 as int].len() && #[trigger] covered(dv, st, mk, q, l) implies covered(
        dv,
        st2,
        mk,
        q,
        l,
    ) by {
        assert(st2[q] == st[q]);
        let e = dv[st[q].0 as int][l];
        if mk[e as int] != Some(Mark::Black) {
            let q2 = choose|q2: int| q < q2 < st.len() && st[q2].0 == e;
            assert(st2[q2] == st[q2]);
        }
    }
    assert forall|q: int, l: int|
        0 <= q < xpos && q < st2.len() && st2[q].1 && 0 <= l < dv[st2[q].0 as int].len() implies #[trigger] covered(
        dv,
        st2,
        mk,
        q,
        l,
    ) by {
        assert(st2[q] == st[q]);
        assert(covered(dv, st, mk, q, l));
    }
    assert forall|l: int| 0 <= l <= k implies #[trigger] covered(dv, st2, mk, xpos, l) by {
        assert(st2[xpos] == st[xpos]);
        if l < k {
            assert(covered(dv, st, mk, xpos, l));
        } else {
            assert(st2[len as int].0 == d);
        }
    }
    assert forall|q: int| xpos < q < st2.len() implies !(#[trigger] st2[q]).1 by {
        if q < len {
            assert(st2[q] == st[q]);
        }
    }
}

/// Once every dependency of the stage being entered is covered, so is every
/// "leaving" entry on the stack.
proof fn lemma_search_covered_all(dv: Seq<Seq<usize>>, st: Seq<(usize, bool)>, mk: Seq<Option<Mark>>, xpos: int)
    requires
        0 <= xpos < st.len(),
        all_covered(dv, st, mk, xpos),
        forall|l: int| 0 <= l < dv[st[xpos].0 as int].len() ==> #[trigger] covered(dv, st, mk, xpos, l),
        forall|q: int| xpos < q < st.len() ==> !(#[trigger] st[q]).1,
    ensures
        all_covered(dv, st, mk, st.len() as int),
{
    reveal(all_covered);
    assert forall|q: int, l: int|
        0 <= q < st.len() && q < st.len() && st[q].1 && 0 <= l < dv[st[q].0 as int].len() implies #[trigger] covered(
        dv,
        st,
        mk,
        q,
        l,
    ) by {
        if q > xpos {
            assert(!st[q].1);
        }
    }
}

/// A dependency of the stage being entered that is still grey closes a
/// cycle: the grey path runs from it to the stage being entered.
proof fn lemma_search_cycle(
    dv: Seq<Seq<usize>>,
    st: Seq<(usize, bool)>,
    mk: Seq<Option<Mark>>,
    path: Seq<usize>,
    rank: Seq<nat>,
    count: nat,
    k: int,
)
    requires
        search_inv(dv, st, mk, path, rank, count),
        path.len() > 0,
        0 <= k < dv[path.last() as int].len(),
        mk[dv[path.last() as int][k] as int] == Some(Mark::Grey),
    ensures
        index_cycle(dv, dv[path.last() as int][k] as int),
{
    lemma_search_path(dv, st, mk, path, rank, count);
    let x = path.last();
    let d = dv[x as int][k];
    let n = dv.len();
    assert(x < n) by {
        assert(path[path.len() - 1] < n);
    }
    assert(d < n);
    assert(on_path(path, d as int));
    let m = choose|m: int| 0 <= m < path.len() && path[m] == d;
    let len = path.len() - m;
    let p = Seq::new((len + 1) as nat, |t: int| if t < len { path[m + t] as int } else { d as int });
    assert(p[0] == d as int);
    assert(p.last() == d as int);
    assert forall|t: int| 0 <= t < p.len() - 1 implies #[trigger] index_link(dv, p, t) by {
        assert(path[m + t] < n);
        if t < len - 1 {
            assert(path_link(dv, path, m + t));
        } else {
            assert(p[t] == x as int);
            assert(dv[x as int][k] == d);
        }
    }
    assert(index_cycle(dv, d as int));
}

/// What the grey path is: stages of the graph, each depending on the next,
/// holding every grey stage.
proof fn lemma_search_path(
    dv: Seq<Seq<usize>>,
    st: Seq<(usize, bool)>,
    mk: Seq<Option<Mark>>,
    path: Seq<usize>,
    rank: Seq<nat>,
    count: nat,
)
    requires
        search_inv(dv, st, mk, path, rank, count),
    ensures
        deps_in_range(dv),
        forall|k: int| 0 <= k < path.len() ==> #[trigger] path[k] < dv.len(),
        forall|k: int| 0 <= k < path.len() - 1 ==> #[trigger] path_link(dv, path, k),
        forall|j: int| 0 <= j < dv.len() && #[trigger] mk[j] == Some(Mark::Grey) ==> on_path(path, j),
{
    reveal(search_inv);
}

/// The colours of a search between explorations, with the grey path and
/// the finishing ranks it has built.
struct Search {
    marks: Vec<Option<Mark>>,
    path: Ghost<Seq<usize>>,
    rank: Ghost<Seq<nat>>,
    count: Ghost<nat>,
}

impl Search {
    /// Nothing is on the stack and the state hangs together.
    spec fn at_rest(&self, dv: Seq<Seq<usize>>) -> bool {
        search_inv(dv, Seq::empty(), self.marks@, self.path@, self.rank@, self.count@)
    }

    /// Pushes an entry for every white dependency of `name`, whose "leaving"
    /// entry is on top of the stack; a grey dependency stops the search.
    fn push_deps(&self, deps: &Vec<Vec<usize>>, name: usize, stack: &mut Vec<(usize, bool)>) -> (r: Option<usize>)
        requires
            deps_in_range(dep_views(deps@)),
            name < deps.len(),
            old(stack)@.len() >= 1,
            old(stack)@.last() == (name, true),
            self.path@.len() > 0 && self.path@.last() == name,
            search_inv(dep_views(deps@), old(stack)@, self.marks@, self.path@, self.rank@, self.count@),
            all_covered(dep_views(deps@), old(stack)@, self.marks@, old(stack)@.len() - 1),
        ensures
            r matches Some(d) ==> d < deps.len() && index_cycle(dep_views(deps@), d as int),
            r is None ==> {
                &&& final(stack)@.len() >= old(stack)@.len()
                &&& forall|q: int| 0 <= q < old(stack)@.len() ==> final(stack)@[q] == old(stack)@[q]
                &&& search_inv(dep_views(deps@), final(stack)@, self.marks@, self.path@, self.rank@, self.count@)
                &&& all_covered(dep_views(deps@), final(stack)@, self.marks@, final(stack)@.len() as int)
            },
    {
        let ghost dv = dep_views(deps@);
        let ghost st1 = stack@;
        let ghost xpos = stack@.len() - 1;
        let n = deps.len();
        proof {
            assert(dv[name as int] == deps@[name as int]@);
        }
        let mut k: usize = 0;
        while k < deps[name].len()
            invariant
                n == deps.len(),
                dv == dep_views(deps@),
                deps_in_range(dv),
                name < n,
                xpos == st1.len() - 1,
                st1.len() >= 1,
                stack@.len() >= st1.len(),
                forall|q: int| 0 <= q < st1.len() ==> stack@[q] == st1[q],
                stack@[xpos] == (name, true),
                forall|q: int| xpos < q < stack@.len() ==> !(#[trigger] stack@[q]).1,
                self.path@.len() > 0 && self.path@.last() == name,
                deps@[name as int]@ == dv[name as int],
                k <= dv[name as int].len(),
                search_inv(dv, stack@, self.marks@, self.path@, self.rank@, self.count@),
                all_covered(dv, stack@, self.marks@, xpos),
                forall|l: int| 0 <= l < k ==> #[trigger] covered(dv, stack@, self.marks@, xpos, l),
            decreases dv[name as int].len() - k,
        {
            let d = deps[name][k];
            assert(d == dv[name as int][k as int]);
            proof {
                lemma_search_basics(dv, stack@, self.marks@, self.path@, self.rank@, self.count@);
            }
            match self.marks[d] {
                Some(Mark::Grey) => {
                    proof {
                        lemma_search_cycle(dv, stack@, self.marks@, self.path@, self.rank@, self.count@, k as int);
                    }
                    return Some(d);
                },
                Some(Mark::Black) => {
                    assert(covered(dv, stack@, self.marks@, xpos, k as int));
                },
                None => {
                    let ghost before = stack@;
                    stack.push((d, false));
                    proof {
                        lemma_search_push(dv, before, self.marks@, self.path@, self.rank@, self.count@, xpos, k as int);
                    }
                },
            }
            k = k + 1;
        }
        proof {
            lemma_search_covered_all(dv, stack@, self.marks@, xpos);
        }
        None
    }

    /// Explores everything reachable from the white stage `root`: either it
    /// and all it depends on end black, or a cycle is found.
    fn explore(&mut self, deps: &Vec<Vec<usize>>, root: usize) -> (r: Option<usize>)
        requires
            deps_in_range(dep_views(deps@)),
            root < deps.len(),
            old(self).at_rest(dep_views(deps@)),
            old(self).marks@[root as int] is None,
        ensures
            r matches Some(d) ==> d < deps.len() && index_cycle(dep_views(deps@), d as int),
            r is None ==> {
                &&& final(self).at_rest(dep_views(deps@))
                &&& final(self).marks@[root as int] == Some(Mark::Black)
                &&& forall|j: int|
                    0 <= j < deps.len() && old(self).marks@[j] == Some(Mark::Black) ==> #[trigger] final(self).marks@[j]
                        == Some(Mark::Black)
            },
    {
        let ghost dv = dep_views(deps@);
        let ghost pre = self.marks@;
        let n = deps.len();
        proof {
            lemma_search_basics(dv, Seq::empty(), self.marks@, self.path@, self.rank@, self.count@);
        }
        let mut stack: Vec<(usize, bool)> = Vec::new();
        stack.push((root, false));
        proof {
            lemma_search_root(dv, self.marks@, self.path@, self.rank@, self.count@, root);
            assert(stack@ == seq![(root, false)]);
        }
        while stack.len() > 0
            invariant
                n == deps.len(),
                dv == dep_views(deps@),
                deps_in_range(dv),
                root < n,
                search_inv(dv, stack@, self.marks@, self.path@, self.rank@, self.count@),
                all_covered(dv, stack@, self.marks@, stack.len() as int),
                stack.len() == 0 ==> self.marks@[root as int] == Some(Mark::Black),
                stack.len() > 0 ==> stack@[0].0 == root,
                stack.len() > 0 && !stack@[0].1 ==> stack.len() == 1 && self.marks@[root as int] is None,
                pre.len() == n,
                forall|j: int| 0 <= j < n && pre[j] == Some(Mark::Black) ==> #[trigger] self.marks@[j] == Some(Mark::Black),
            decreases count_marks(self.marks@, None), count_marks(self.marks@, Some(Mark::Grey)), stack.len(),
        {
            let ghost st = stack@;
            let ghost mk = self.marks@;
            let ghost path = self.path@;
            let ghost rank = self.rank@;
            let ghost count = self.count@;
            proof {
                lemma_search_basics(dv, st, mk, path, rank, count);
            }
            let (name, leaving) = stack.pop().unwrap();
            assert(st.last() == (name, leaving));
            assert(stack@ == st.drop_last());
            assert(name < n);
            if leaving {
                proof {
                    lemma_search_leave(dv, st, mk, path, rank, count);
                }
                self.marks.set(name, Some(Mark::Black));
                self.rank = Ghost(rank.update(name as int, count));
                self.count = Ghost(count + 1);
                self.path = Ghost(path.drop_last());
                proof {
                    if stack.len() > 0 {
                        assert(stack@[0] == st[0]);
                    } else {
                        assert(st[0] == st.last());
                    }
                }
                continue;
            }
            proof {
                lemma_search_top_not_grey(dv, st, mk, path, rank, count);
            }
            match self.marks[name] {
                Some(Mark::Black) => {
                    proof {
                        lemma_search_skip(dv, st, mk, path, rank, count);
                        if stack.len() > 0 {
                            assert(stack@[0] == st[0]);
                        } else {
                            assert(st[0] == st.last());
                        }
                    }
                    continue;
                },
                Some(Mark::Grey) => {},
                None => {
                    self.marks.set(name, Some(Mark::Grey));
                },
            }
            stack.push((name, true));
            self.path = Ghost(path.push(name));
            proof {
                lemma_search_enter(dv, st, mk, path, rank, count);
                assert(stack@ == st.drop_last().push((name, true)));
                if st.len() == 1 {
                    assert(st[0] == st.last());
                } else {
                    assert(stack@[0] == st[0]);
                }
            }
            let ghost st1 = stack@;
            match self.push_deps(deps, name, &mut stack) {
                Some(d) => {
                    return Some(d);
                },
                None => {},
            }
            proof {
                assert(stack@[0] == st1[0]);
            }
        }
        proof {
            assert(stack@ =~= Seq::<(usize, bool)>::empty());
        }
        None
    }
}

/// Depth-first search over the resolved dependencies, colouring stages grey
/// on entry and black when left: either every stage is left, each after all
/// its dependencies (their finishing order ranks them), or a dependency is
/// met while still grey, which closes a cycle through it.
pub(crate) fn find_cycle(deps: &Vec<Vec<usize>>) -> (r: Result<Ghost<Seq<nat>>, usize>)
    requires
        deps_in_range(dep_views(deps@)),
    ensures
        r matches Ok(rank) ==> index_ranked(dep_views(deps@), rank@),
        r matches Err(d) ==> d < deps.len() && index_cycle(dep_views(deps@), d as int),
{
    let ghost dv = dep_views(deps@);
    let n = deps.len();
    let mut marks: Vec<Option<Mark>> = Vec::new();
    let mut i: usize = 0;
    while i < n
        invariant
            i <= n,
            marks.len() == i,
            forall|j: int| 0 <= j < i ==> marks@[j] is None,
        decreases n - i,
    {
        marks.push(None);
        i = i + 1;
    }
    let mut search = Search {
        marks,
        path: Ghost(Seq::empty()),
        rank: Ghost(Seq::new(n as nat, |j: int| 0nat)),
        count: Ghost(0),
    };
    proof {
        lemma_search_start(dv, search.marks@, search.rank@);
    }
    let mut root: usize = 0;
    while root < n
        invariant
            n == deps.len(),
            dv == dep_views(deps@),
            deps_in_range(dv),
            root <= n,
            search.at_rest(dv),
            forall|j: int| 0 <= j < root ==> #[trigger] search.marks@[j] == Some(Mark::Black),
        decreases n - root,
    {
        proof {
            lemma_search_basics(dv, Seq::empty(), search.marks@, search.path@, search.rank@, search.count@);
        }
        if search.marks[root].is_none() {
            match search.explore(deps, root) {
                Some(d) => {
                    return Err(d);
                },
                None => {},
            }
        }
        root = root + 1;
    }
    proof {
        lemma_search_done(dv, Seq::empty(), search.marks@, search.path@, search.rank@, search.count@);
    }
    Ok(search.rank)
}

} // verus!
