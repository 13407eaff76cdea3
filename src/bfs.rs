//! Breadth-first search over an adjacency list whose nodes are dense ids.
use vstd::prelude::*;
use vstd::set_lib::{lemma_int_range, lemma_len_subset, set_int_range};

verus! {

/// The adjacency lists of a `Vec<Vec<usize>>`, as sequences.
pub open spec fn adj_view(adj: Seq<Vec<usize>>) -> Seq<Seq<usize>> {
    adj.map_values(|v: Vec<usize>| v@)
}

/// Every neighbour id names a node.
pub open spec fn valid_adj(adj: Seq<Seq<usize>>) -> bool {
    forall|i: int, j: int|
        0 <= i < adj.len() && 0 <= j < adj[i].len() ==> #[trigger] adj[i][j] < adj.len()
}

/// The step from `p[k]` to `p[k + 1]` follows an edge.
pub open spec fn edge_at(adj: Seq<Seq<usize>>, p: Seq<usize>, k: int) -> bool {
    adj[p[k] as int].contains(p[k + 1])
}

/// `p` is a walk: a non-empty sequence of nodes, each joined to the next by an edge.
pub open spec fn is_walk(adj: Seq<Seq<usize>>, p: Seq<usize>) -> bool {
    &&& p.len() > 0
    &&& forall|k: int| 0 <= k < p.len() ==> #[trigger] p[k] < adj.len()
    &&& forall|k: int| 0 <= k < p.len() - 1 ==> #[trigger] edge_at(adj, p, k)
}

/// `p` is a walk from `s` to `t`.
pub open spec fn walk_between(adj: Seq<Seq<usize>>, p: Seq<usize>, s: usize, t: usize) -> bool {
    is_walk(adj, p) && p[0] == s && p.last() == t
}

/// Some walk from `s` to `t` has exactly `d` edges.
pub open spec fn within(adj: Seq<Seq<usize>>, s: usize, t: usize, d: nat) -> bool {
    exists|p: Seq<usize>| #[trigger] walk_between(adj, p, s, t) && p.len() == d + 1
}

/// Some walk leads from `s` to `t`.
pub open spec fn reachable(adj: Seq<Seq<usize>>, s: usize, t: usize) -> bool {
    exists|d: nat| #[trigger] within(adj, s, t, d)
}

/// `d` is the least number of edges on a walk from `s` to `t`.
pub open spec fn is_distance(adj: Seq<Seq<usize>>, s: usize, t: usize, d: nat) -> bool {
    &&& within(adj, s, t, d)
    &&& forall|e: nat| #[trigger] within(adj, s, t, e) ==> d <= e
}

/// The hop distance from `s` to `t` (meaningful where `t` is reachable from `s`).
pub open spec fn distance(adj: Seq<Seq<usize>>, s: usize, t: usize) -> nat {
    choose|d: nat| is_distance(adj, s, t, d)
}

/// The state of a breadth-first search: the distance recorded for each node, each node's
/// parent, and the nodes in the order they were discovered (the queue).
pub type SearchState = (Seq<Option<usize>>, Seq<usize>, Seq<usize>);

/// The search's state before any node is processed: only `s` is discovered, at distance zero.
pub open spec fn initial(n: nat, s: usize) -> SearchState {
    (
        Seq::new(n, |v: int| if v == s as int { Some(0usize) } else { None }),
        Seq::new(n, |v: int| s),
        seq![s],
    )
}

/// Looking at the neighbour `w` of `u`: if `w` is undiscovered, it is discovered one level
/// beyond `u`, with `u` as its parent, and joins the queue.
pub open spec fn visit(st: SearchState, u: usize, w: usize) -> SearchState {
    if st.0[w as int] is None {
        (
            st.0.update(w as int, Some((st.0[u as int]->0 + 1) as usize)),
            st.1.update(w as int, u),
            st.2.push(w),
        )
    } else {
        st
    }
}

/// Looking at the first `j` neighbours of `u`, in order.
pub open spec fn scan(a: Seq<Seq<usize>>, st: SearchState, u: usize, j: nat) -> SearchState
    decreases j,
{
    if j == 0 {
        st
    } else {
        visit(scan(a, st, u, (j - 1) as nat), u, a[u as int][j - 1])
    }
}

/// Processing queued nodes from position `head` on, at most `fuel` of them.
pub open spec fn run(a: Seq<Seq<usize>>, st: SearchState, head: nat, fuel: nat) -> SearchState
    decreases fuel,
{
    if fuel == 0 || head >= st.2.len() {
        st
    } else {
        let u = st.2[head as int];
        run(a, scan(a, st, u, a[u as int].len()), head + 1, (fuel - 1) as nat)
    }
}

/// The finished breadth-first search from `s`: a node is discovered when it is first seen as
/// a neighbour of the node being processed, which becomes its parent.
pub open spec fn bfs_tree(a: Seq<Seq<usize>>, s: usize) -> SearchState {
    run(a, initial(a.len(), s), 0, a.len())
}

/// Following parent links `m` times from `t`.
pub open spec fn ancestor(parent: Seq<usize>, t: usize, m: nat) -> usize
    decreases m,
{
    if m == 0 {
        t
    } else {
        parent[ancestor(parent, t, (m - 1) as nat) as int]
    }
}

/// The `d + 1` nodes from the `d`-th ancestor of `t` down to `t`.
pub open spec fn traced_path(parent: Seq<usize>, t: usize, d: nat) -> Seq<usize> {
    Seq::new(d + 1, |j: int| ancestor(parent, t, (d - j) as nat))
}

/// What a finished search from `s` records: the distance of each reachable node, and for
/// each reachable node other than `s` a predecessor one hop nearer to `s`.
pub open spec fn search_result(
    adj: Seq<Seq<usize>>,
    s: usize,
    dist: Seq<Option<usize>>,
    parent: Seq<usize>,
) -> bool {
    &&& dist.len() == adj.len()
    &&& parent.len() == adj.len()
    &&& forall|v: usize|
        v < adj.len() ==> (#[trigger] dist[v as int] is Some <==> reachable(adj, s, v))
    &&& forall|v: usize|
        v < adj.len() && #[trigger] dist[v as int] is Some ==> is_distance(
            adj,
            s,
            v,
            dist[v as int]->0 as nat,
        )
    &&& forall|v: usize|
        v < adj.len() && v != s && #[trigger] dist[v as int] is Some ==> {
            &&& parent[v as int] < adj.len()
            &&& dist[v as int]->0 > 0
            &&& dist[parent[v as int] as int] == Some((dist[v as int]->0 - 1) as usize)
            &&& adj[parent[v as int] as int].contains(v)
        }
}

/// A distance found for `t` is the distance, and it is unique.
pub proof fn lemma_distance_unique(adj: Seq<Seq<usize>>, s: usize, t: usize, d: nat)
    requires
        is_distance(adj, s, t, d),
    ensures
        distance(adj, s, t) == d,
        reachable(adj, s, t),
{
    let e = distance(adj, s, t);
    assert(is_distance(adj, s, t, e));
    assert(within(adj, s, t, d));
    assert(within(adj, s, t, e));
}

/// The one-node walk: every node is at distance zero from itself.
pub proof fn lemma_distance_self(adj: Seq<Seq<usize>>, s: usize)
    requires
        s < adj.len(),
    ensures
        is_distance(adj, s, s, 0),
        distance(adj, s, s) == 0,
{
    let p = seq![s];
    assert(walk_between(adj, p, s, s));
    assert(within(adj, s, s, 0));
    lemma_distance_unique(adj, s, s, 0);
}

proof fn lemma_extend_walk(adj: Seq<Seq<usize>>, p: Seq<usize>, w: usize)
    requires
        is_walk(adj, p),
        w < adj.len(),
        adj[p.last() as int].contains(w),
    ensures
        is_walk(adj, p.push(w)),
        p.push(w).last() == w,
        p.push(w)[0] == p[0],
{
    let q = p.push(w);
    assert forall|k: int| 0 <= k < q.len() - 1 implies #[trigger] edge_at(adj, q, k) by {
        if k < p.len() - 1 {
            assert(edge_at(adj, p, k));
        }
    }
    assert forall|k: int| 0 <= k < q.len() implies #[trigger] q[k] < adj.len() by {
        if k < p.len() {
            assert(p[k] < adj.len());
        }
    }
}

/// A walk from `s` has no fewer edges than the distance the search recorded at its end.
proof fn lemma_walk_bound(adj: Seq<Seq<usize>>, dist: Seq<Option<usize>>, s: usize, p: Seq<usize>)
    requires
        dist.len() == adj.len(),
        is_walk(adj, p),
        p[0] == s,
        dist[s as int] == Some(0usize),
        forall|u: usize, j: int|
            u < adj.len() && dist[u as int] is Some && 0 <= j < adj[u as int].len() ==> {
                &&& dist[#[trigger] adj[u as int][j] as int] is Some
                &&& dist[adj[u as int][j] as int]->0 <= dist[u as int]->0 + 1
            },
    ensures
        dist[p.last() as int] is Some,
        dist[p.last() as int]->0 <= p.len() - 1,
    decreases p.len(),
{
    if p.len() > 1 {
        let q = p.drop_last();
        assert forall|k: int| 0 <= k < q.len() - 1 implies #[trigger] edge_at(adj, q, k) by {
            assert(edge_at(adj, p, k));
        }
        assert forall|k: int| 0 <= k < q.len() implies #[trigger] q[k] < adj.len() by {
            assert(p[k] < adj.len());
        }
        lemma_walk_bound(adj, dist, s, q);
        let u = p[p.len() - 2];
        assert(edge_at(adj, p, p.len() - 2));
        assert(u < adj.len());
        let j = choose|j: int| 0 <= j < adj[u as int].len() && adj[u as int][j] == p.last();
        assert(dist[adj[u as int][j] as int] is Some);
    }
}

proof fn lemma_distinct_bound(s: Seq<usize>, n: nat)
    requires
        s.no_duplicates(),
        forall|i: int| 0 <= i < s.len() ==> s[i] < n,
    ensures
        s.len() <= n,
{
    let t = s.map_values(|x: usize| x as int);
    assert(t.no_duplicates()) by {
        assert forall|i: int, j: int|
            0 <= i < t.len() && 0 <= j < t.len() && i != j implies t[i] != t[j] by {
            assert(s[i] != s[j]);
        }
    }
    t.unique_seq_to_set();
    lemma_int_range(0, n as int);
    assert(t.to_set().subset_of(set_int_range(0, n as int))) by {
        assert forall|x: int| t.to_set().contains(x) implies set_int_range(0, n as int).contains(
            x,
        ) by {
            let i = choose|i: int| 0 <= i < t.len() && t[i] == x;
            assert(s[i] < n);
        }
    }
    lemma_len_subset(t.to_set(), set_int_range(0, n as int));
}

/// What holds of the search's state whatever the position of the queue's head: `order`
/// lists the discovered nodes without repetition, in non-decreasing distance; each
/// discovered node has a walk of its recorded length and, but for `s`, a recorded parent
/// one hop nearer.
#[verifier::opaque]
spec fn discovered_ok(
    a: Seq<Seq<usize>>,
    s: usize,
    dist: Seq<Option<usize>>,
    parent: Seq<usize>,
    order: Seq<usize>,
) -> bool {
    &&& dist.len() == a.len()
    &&& parent.len() == a.len()
    &&& s < a.len()
    &&& order.len() > 0
    &&& order[0] == s
    &&& dist[s as int] == Some(0usize)
    &&& order.no_duplicates()
    &&& forall|i: int| 0 <= i < order.len() ==> #[trigger] order[i] < a.len()
    &&& forall|v: usize|
        v < a.len() ==> (#[trigger] dist[v as int] is Some <==> order.contains(v))
    &&& forall|i: int, j: int|
        0 <= i <= j < order.len() ==> dist[#[trigger] order[i] as int]->0 <= dist[#[trigger] order[j] as int]->0
    &&& forall|i: int| 0 <= i < order.len() ==> dist[#[trigger] order[i] as int]->0 <= i
    &&& forall|v: usize|
        v < a.len() && #[trigger] dist[v as int] is Some ==> within(
            a,
            s,
            v,
            dist[v as int]->0 as nat,
        )
    &&& forall|v: usize|
        v < a.len() && v != s && #[trigger] dist[v as int] is Some ==> {
            &&& parent[v as int] < a.len()
            &&& dist[v as int]->0 > 0
            &&& dist[parent[v as int] as int] == Some((dist[v as int]->0 - 1) as usize)
            &&& a[parent[v as int] as int].contains(v)
        }
}

/// Every neighbour of the first `head` queued nodes is discovered, at most one level further.
spec fn processed_ok(a: Seq<Seq<usize>>, dist: Seq<Option<usize>>, order: Seq<usize>, head: int) -> bool {
    forall|i: int, j: int|
        0 <= i < head && 0 <= j < a[order[i] as int].len() ==> {
            &&& dist[#[trigger] a[order[i] as int][j] as int] is Some
            &&& dist[a[order[i] as int][j] as int]->0 <= dist[order[i] as int]->0 + 1
        }
}

proof fn lemma_state_facts(
    a: Seq<Seq<usize>>,
    s: usize,
    dist: Seq<Option<usize>>,
    parent: Seq<usize>,
    order: Seq<usize>,
)
    requires
        discovered_ok(a, s, dist, parent, order),
    ensures
        dist.len() == a.len(),
        parent.len() == a.len(),
        order.len() <= a.len(),
        forall|i: int|
            0 <= i < order.len() ==> {
                &&& #[trigger] order[i] < a.len()
                &&& dist[order[i] as int] is Some
                &&& dist[order[i] as int]->0 <= i
            },
        forall|v: usize| v < a.len() ==> (#[trigger] dist[v as int] is Some <==> order.contains(v)),
        forall|v: usize|
            v < a.len() && #[trigger] dist[v as int] is Some ==> within(a, s, v, dist[v as int]->0 as nat),
        forall|v: usize|
            v < a.len() && #[trigger] dist[v as int] is Some ==> dist[v as int]->0 <= dist[order.last() as int]->0,
        forall|i: int, j: int|
            0 <= i <= j < order.len() ==> dist[#[trigger] order[i] as int]->0 <= dist[#[trigger] order[j] as int]->0,
{
    reveal(discovered_ok);
    lemma_distinct_bound(order, a.len());
    assert forall|i: int| 0 <= i < order.len() implies {
        &&& #[trigger] order[i] < a.len()
        &&& dist[order[i] as int] is Some
        &&& dist[order[i] as int]->0 <= i
    } by {
        assert(order.contains(order[i]));
    }
    assert forall|v: usize|
        v < a.len() && #[trigger] dist[v as int] is Some implies dist[v as int]->0 <= dist[order.last() as int]->0 by {
        let i = choose|i: int| 0 <= i < order.len() && order[i] == v;
        assert(dist[order[i] as int]->0 <= dist[order[order.len() - 1] as int]->0);
    }
}

proof fn lemma_state_start(a: Seq<Seq<usize>>, s: usize, dist: Seq<Option<usize>>, parent: Seq<usize>)
    requires
        s < a.len(),
        dist.len() == a.len(),
        parent.len() == a.len(),
        dist[s as int] == Some(0usize),
        forall|v: usize| v < a.len() && v != s ==> dist[v as int] is None,
    ensures
        discovered_ok(a, s, dist, parent, seq![s]),
{
    reveal(discovered_ok);
    lemma_distance_self(a, s);
    let order = seq![s];
    assert(order.contains(s)) by {
        assert(order[0] == s);
    }
    assert forall|v: usize| v < a.len() implies (#[trigger] dist[v as int] is Some
        <==> order.contains(v)) by {
        if order.contains(v) {
            let i = choose|i: int| 0 <= i < order.len() && order[i] == v;
            assert(i == 0);
        }
    }
    assert(within(a, s, s, 0));
}

/// Discovering `w` from the node `u` at the head of the queue keeps the state consistent.
proof fn lemma_state_discover(
    a: Seq<Seq<usize>>,
    s: usize,
    dist: Seq<Option<usize>>,
    parent: Seq<usize>,
    order: Seq<usize>,
    u: usize,
    du: usize,
    head: int,
    w: usize,
)
    requires
        discovered_ok(a, s, dist, parent, order),
        0 <= head < order.len(),
        order[head] == u,
        dist[u as int] == Some(du),
        dist[order.last() as int]->0 <= du + 1,
        du + 1 <= usize::MAX,
        w < a.len(),
        dist[w as int] is None,
        a[u as int].contains(w),
    ensures
        discovered_ok(
            a,
            s,
            dist.update(w as int, Some((du + 1) as usize)),
            parent.update(w as int, u),
            order.push(w),
        ),
{
    reveal(discovered_ok);
    let dist1 = dist.update(w as int, Some((du + 1) as usize));
    let parent1 = parent.update(w as int, u);
    let order1 = order.push(w);
    assert(order.contains(u));
    let p = choose|p: Seq<usize>| #[trigger] walk_between(a, p, s, u) && p.len() == du + 1;
    lemma_extend_walk(a, p, w);
    assert(walk_between(a, p.push(w), s, w));
    assert(within(a, s, w, (du + 1) as nat));
    assert(!order.contains(w));
    assert forall|v: usize| v < a.len() implies (#[trigger] dist1[v as int] is Some
        <==> order1.contains(v)) by {
        if v != w {
            if order.contains(v) {
                let i = choose|i: int| 0 <= i < order.len() && order[i] == v;
                assert(order1[i] == order[i]);
            }
            if order1.contains(v) {
                let i = choose|i: int| 0 <= i < order1.len() && order1[i] == v;
                assert(i < order.len());
                assert(order[i] == v);
                assert(order.contains(v));
            }
        } else {
            assert(order1[order1.len() - 1] == w);
        }
    }
    assert forall|i: int, j: int| 0 <= i < order1.len() && 0 <= j < order1.len() && i != j implies order1[i] != order1[j] by {
        if i < order.len() && j < order.len() {
        } else if i < order.len() {
            assert(order.contains(order[i]));
        } else {
            assert(order.contains(order[j]));
        }
    }
    assert forall|i: int, j: int|
        0 <= i <= j < order1.len() implies dist1[#[trigger] order1[i] as int]->0 <= dist1[#[trigger] order1[j] as int]->0 by {
        if j == order.len() && i < order.len() {
            assert(dist[order[i] as int]->0 <= dist[order.last() as int]->0);
        }
    }
    assert forall|i: int| 0 <= i < order1.len() implies dist1[#[trigger] order1[i] as int]->0 <= i by {
        if i == order.len() {
            assert(dist[order[head] as int]->0 <= head);
        }
    }
}

/// Once every queued node has been processed, the recorded distances are the distances.
proof fn lemma_state_finish(
    a: Seq<Seq<usize>>,
    s: usize,
    dist: Seq<Option<usize>>,
    parent: Seq<usize>,
    order: Seq<usize>,
)
    requires
        discovered_ok(a, s, dist, parent, order),
        processed_ok(a, dist, order, order.len() as int),
    ensures
        search_result(a, s, dist, parent),
{
    reveal(discovered_ok);
    assert forall|u: usize, j: int|
        u < a.len() && dist[u as int] is Some && 0 <= j < a[u as int].len() implies {
            &&& dist[#[trigger] a[u as int][j] as int] is Some
            &&& dist[a[u as int][j] as int]->0 <= dist[u as int]->0 + 1
        } by {
        assert(order.contains(u));
        let i = choose|i: int| 0 <= i < order.len() && order[i] == u;
        assert(a[order[i] as int][j] == a[u as int][j]);
    }
    assert forall|v: usize| v < a.len() implies (#[trigger] dist[v as int] is Some <==> reachable(
        a,
        s,
        v,
    )) && (dist[v as int] is Some ==> is_distance(a, s, v, dist[v as int]->0 as nat)) by {
        if dist[v as int] is Some {
            let d = dist[v as int]->0 as nat;
            assert(within(a, s, v, d));
            assert forall|e: nat| #[trigger] within(a, s, v, e) implies d <= e by {
                let p = choose|p: Seq<usize>| #[trigger] walk_between(a, p, s, v) && p.len() == e + 1;
                lemma_walk_bound(a, dist, s, p);
            }
        }
        if reachable(a, s, v) {
            let e = choose|e: nat| #[trigger] within(a, s, v, e);
            let p = choose|p: Seq<usize>| #[trigger] walk_between(a, p, s, v) && p.len() == e + 1;
            lemma_walk_bound(a, dist, s, p);
        }
    }
}

/// Breadth-first search from `s`: the hop distance of every node reachable from `s`
/// (`None` for the others) and, for each reachable node other than `s`, the node through
/// which the search first reached it.
pub fn search(adj: &Vec<Vec<usize>>, s: usize) -> (res: (Vec<Option<usize>>, Vec<usize>))
    requires
        valid_adj(adj_view(adj@)),
        s < adj@.len(),
    ensures
        search_result(adj_view(adj@), s, res.0@, res.1@),
        res.0@ == bfs_tree(adj_view(adj@), s).0,
        res.1@ == bfs_tree(adj_view(adj@), s).1,
{
    let ghost a = adj_view(adj@);
    let n = adj.len();
    let mut dist: Vec<Option<usize>> = Vec::new();
    let mut parent: Vec<usize> = Vec::new();
    let mut i: usize = 0;
    while i < n
        invariant
            i <= n,
            n == adj@.len(),
            dist@.len() == i,
            parent@.len() == i,
            forall|v: int| 0 <= v < i ==> dist@[v] is None,
            forall|v: int| 0 <= v < i ==> parent@[v] == s,
        decreases n - i,
    {
        dist.push(None);
        parent.push(s);
        i = i + 1;
    }
    dist.set(s, Some(0));
    let mut order: Vec<usize> = Vec::new();
    order.push(s);
    proof {
        assert(order@ == seq![s]);
        lemma_state_start(a, s, dist@, parent@);
        assert(dist@ =~= initial(n as nat, s).0);
        assert(parent@ =~= initial(n as nat, s).1);
        assert((dist@, parent@, order@) == initial(n as nat, s));
    }
    let mut head: usize = 0;
    while head < order.len()
        invariant
            n == adj@.len(),
            a == adj_view(adj@),
            valid_adj(a),
            discovered_ok(a, s, dist@, parent@, order@),
            head <= order@.len(),
            head < order@.len() ==> dist@[order@.last() as int]->0 <= dist@[order@[head as int] as int]->0 + 1,
            processed_ok(a, dist@, order@, head as int),
            run(a, (dist@, parent@, order@), head as nat, (n - head) as nat) == bfs_tree(a, s),
        decreases n - head,
    {
        proof {
            lemma_state_facts(a, s, dist@, parent@, order@);
        }
        let u = order[head];
        let du = dist[u].unwrap();
        let nbrs = &adj[u];
        let ghost st_head: SearchState = (dist@, parent@, order@);
        let mut j: usize = 0;
        while j < nbrs.len()
            invariant
                n == adj@.len(),
                a == adj_view(adj@),
                valid_adj(a),
                discovered_ok(a, s, dist@, parent@, order@),
                head < order@.len(),
                u == order@[head as int],
                u < n,
                dist@[u as int] == Some(du),
                du <= head,
                nbrs@ == a[u as int],
                j <= nbrs@.len(),
                dist@[order@.last() as int]->0 <= du + 1,
                processed_ok(a, dist@, order@, head as int),
                forall|k: int|
                    0 <= k < j ==> {
                        &&& dist@[#[trigger] nbrs@[k] as int] is Some
                        &&& dist@[nbrs@[k] as int]->0 <= du + 1
                    },
                (dist@, parent@, order@) == scan(a, st_head, u, j as nat),
            decreases nbrs@.len() - j,
        {
            let w = nbrs[j];
            proof {
                lemma_state_facts(a, s, dist@, parent@, order@);
            }
            let ghost st_j: SearchState = (dist@, parent@, order@);
            proof {
                assert(a[u as int][j as int] == w);
                assert(scan(a, st_head, u, (j + 1) as nat) == visit(st_j, u, w));
            }
            if dist[w].is_none() {
                proof {
                    lemma_state_discover(a, s, dist@, parent@, order@, u, du, head as int, w);
                }
                dist.set(w, Some(du + 1));
                parent.set(w, u);
                order.push(w);
            }
            proof {
                assert((dist@, parent@, order@) == visit(st_j, u, w));
            }
            j = j + 1;
        }
        proof {
            lemma_state_facts(a, s, dist@, parent@, order@);
            assert(run(a, st_head, head as nat, (n - head) as nat) == run(
                a,
                scan(a, st_head, u, a[u as int].len()),
                (head + 1) as nat,
                (n - head - 1) as nat,
            ));
        }
        head = head + 1;
    }
    proof {
        lemma_state_finish(a, s, dist@, parent@, order@);
        assert(run(a, (dist@, parent@, order@), head as nat, (n - head) as nat) == (
            dist@,
            parent@,
            order@,
        ));
    }
    (dist, parent)
}

/// The distance recorded for the start is zero.
proof fn lemma_start_at_zero(a: Seq<Seq<usize>>, s: usize, dist: Seq<Option<usize>>, parent: Seq<usize>)
    requires
        search_result(a, s, dist, parent),
        s < a.len(),
    ensures
        dist[s as int] == Some(0usize),
{
    lemma_distance_self(a, s);
    assert(reachable(a, s, s));
    let d = dist[s as int]->0 as nat;
    assert(is_distance(a, s, s, d));
    assert(within(a, s, s, 0));
}

/// The nodes of a shortest walk from `s` to `t`, read off a finished search from `s`:
/// the node at position `k` lies at distance `k` from `s`.
pub fn trace_path(adj: &Vec<Vec<usize>>, dist: &Vec<Option<usize>>, parent: &Vec<usize>, s: usize, t: usize) -> (path: Vec<usize>)
    requires
        search_result(adj_view(adj@), s, dist@, parent@),
        s < adj@.len(),
        t < adj@.len(),
        dist@[t as int] is Some,
    ensures
        path@.len() == dist@[t as int]->0 + 1,
        walk_between(adj_view(adj@), path@, s, t),
        forall|k: int| 0 <= k < path@.len() ==> dist@[#[trigger] path@[k] as int] == Some(k as usize),
        path@ == traced_path(parent@, t, dist@[t as int]->0 as nat),
{
    let ghost a = adj_view(adj@);
    proof {
        lemma_start_at_zero(a, s, dist@, parent@);
    }
    let d = dist[t].unwrap();
    let mut rev: Vec<usize> = Vec::new();
    rev.push(t);
    let mut cur = t;
    let mut k = d;
    while k > 0
        invariant
            a == adj_view(adj@),
            search_result(a, s, dist@, parent@),
            dist@[s as int] == Some(0usize),
            cur < a.len(),
            dist@[cur as int] == Some(k),
            k <= d,
            rev@.len() == d - k + 1,
            rev@.last() == cur,
            rev@[0] == t,
            forall|i: int| 0 <= i < rev@.len() ==> #[trigger] rev@[i] < a.len(),
            forall|i: int| 0 <= i < rev@.len() ==> dist@[#[trigger] rev@[i] as int] == Some((d - i) as usize),
            forall|i: int| 0 < i < rev@.len() ==> a[#[trigger] rev@[i] as int].contains(rev@[i - 1]),
            forall|i: int| 0 <= i < rev@.len() ==> #[trigger] rev@[i] == ancestor(parent@, t, i as nat),
        decreases k,
    {
        assert(cur != s);
        cur = parent[cur];
        k = k - 1;
        rev.push(cur);
    }
    assert(cur == s);
    let mut path: Vec<usize> = Vec::new();
    let mut i: usize = rev.len();
    while i > 0
        invariant
            i <= rev@.len(),
            rev@.len() == d + 1,
            path@.len() == rev@.len() - i,
            forall|j: int| 0 <= j < path@.len() ==> #[trigger] path@[j] == rev@[d - j],
            forall|i: int| 0 <= i < rev@.len() ==> #[trigger] rev@[i] == ancestor(parent@, t, i as nat),
        decreases i,
    {
        i = i - 1;
        path.push(rev[i]);
    }
    proof {
        assert forall|j: int| 0 <= j < path@.len() implies #[trigger] path@[j] < a.len() by {
            assert(rev@[d - j] < a.len());
        }
        assert forall|j: int| 0 <= j < path@.len() - 1 implies #[trigger] edge_at(a, path@, j) by {
            assert(path@[j + 1] == rev@[d - j - 1]);
            assert(path@[j] == rev@[d - j]);
            assert(a[rev@[d - j] as int].contains(rev@[d - j - 1]));
        }
        assert forall|j: int| 0 <= j < path@.len() implies dist@[#[trigger] path@[j] as int] == Some(j as usize) by {
            assert(dist@[rev@[d - j] as int] == Some((d - (d - j)) as usize));
        }
        assert(path@[0] == rev@[d as int]);
        assert(path@[d as int] == rev@[0]);
        assert(path@ =~= traced_path(parent@, t, d as nat));
    }
    path
}

} // verus!
