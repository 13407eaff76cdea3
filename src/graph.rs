//! The undirected, labelled graph and its queries.
//!
//! Labels are interned: node `i` carries the label `names()[i]`, and its neighbours, in the
//! order their edges were added, are the ids `links()[i]`.
use vstd::prelude::*;
use crate::bfs::{
    adj_view, bfs_tree, distance, traced_path, is_distance, lemma_distance_unique, reachable, search, search_result,
    trace_path, valid_adj, walk_between, within,
};

verus! {

/// Why a hop-distance query has no answer.
#[derive(Debug, Clone, Copy, PartialEq, Eq)]
pub enum QueryError {
    /// One of the two labels names no node.
    NodeNotFound,
    /// Both nodes exist, but no walk joins them.
    Disconnected,
}

/// Closeness of a node: the reciprocal of the sum of its hop distances to every node.
#[derive(Debug, Clone, Copy, PartialEq, Eq)]
pub enum Closeness {
    /// Every node is reachable; the closeness is `1 / total_distance`.
    Reciprocal { total_distance: u128 },
    /// Every node is reachable but the sum is zero: the node is the graph's only node.
    Degenerate,
    /// The node is absent, or some node cannot be reached from it.
    Undefined,
}

/// Every node can be reached from `s`.
pub open spec fn all_reachable(a: Seq<Seq<usize>>, s: usize) -> bool {
    forall|v: usize| v < a.len() ==> #[trigger] reachable(a, s, v)
}

/// The sum of the hop distances from `s` to the nodes `0 .. k`.
pub open spec fn total_distance(a: Seq<Seq<usize>>, s: usize, k: nat) -> nat
    decreases k,
{
    if k == 0 {
        0
    } else {
        total_distance(a, s, (k - 1) as nat) + distance(a, s, (k - 1) as usize)
    }
}

/// The number of nodes on a shortest path from `s` to `t`, counted for a pair of distinct,
/// connected nodes; zero for any other pair.
pub open spec fn path_nodes(a: Seq<Seq<usize>>, s: usize, t: usize) -> nat {
    if s != t && reachable(a, s, t) {
        distance(a, s, t) + 1
    } else {
        0
    }
}

/// `path_nodes(a, s, t)` summed over the targets `t` in `0 .. k`.
pub open spec fn row_total(a: Seq<Seq<usize>>, s: usize, k: nat) -> nat
    decreases k,
{
    if k == 0 {
        0
    } else {
        row_total(a, s, (k - 1) as nat) + path_nodes(a, s, (k - 1) as usize)
    }
}

/// `path_nodes` summed over every target and the sources in `0 .. k`.
pub open spec fn pair_total(a: Seq<Seq<usize>>, k: nat) -> nat
    decreases k,
{
    if k == 0 {
        0
    } else {
        pair_total(a, (k - 1) as nat) + row_total(a, (k - 1) as usize, a.len())
    }
}

/// Which nodes a pair `(s, t)` of distinct, connected nodes credits.
pub enum Credit {
    /// Its two endpoints.
    Endpoints,
    /// The nodes of the path traced back from `t` along the parent links of the
    /// breadth-first search from `s`.
    Traced,
    /// Every node that lies no farther from `s` than `t` does.
    NoFarther,
}

/// Whether the pair `(s, t)` credits node `i`, as one or zero; a pair of equal or unconnected
/// nodes credits none.
pub open spec fn credit(a: Seq<Seq<usize>>, i: usize, s: usize, t: usize, kind: Credit) -> nat {
    if s != t && reachable(a, s, t) && match kind {
        Credit::Endpoints => i == s || i == t,
        Credit::Traced => traced_path(bfs_tree(a, s).1, t, distance(a, s, t)).contains(i),
        Credit::NoFarther => reachable(a, s, i) && distance(a, s, i) <= distance(a, s, t),
    } {
        1
    } else {
        0
    }
}

/// `credit(a, i, s, t, kind)` summed over the targets `t` in `0 .. k`.
pub open spec fn row_credit(a: Seq<Seq<usize>>, i: usize, s: usize, k: nat, kind: Credit) -> nat
    decreases k,
{
    if k == 0 {
        0
    } else {
        row_credit(a, i, s, (k - 1) as nat, kind) + credit(a, i, s, (k - 1) as usize, kind)
    }
}

/// `credit(a, i, s, t, kind)` summed over every target and the sources `s` in `0 .. k`.
pub open spec fn pair_credit(a: Seq<Seq<usize>>, i: usize, k: nat, kind: Credit) -> nat
    decreases k,
{
    if k == 0 {
        0
    } else {
        pair_credit(a, i, (k - 1) as nat, kind) + row_credit(a, i, (k - 1) as usize, a.len(), kind)
    }
}

/// The credit given to `i` by the pairs before `(s, t)`, taken source by source.
pub open spec fn credit_before(a: Seq<Seq<usize>>, i: usize, s: usize, t: nat, kind: Credit) -> nat {
    pair_credit(a, i, s as nat, kind) + row_credit(a, i, s, t, kind)
}

/// The credits of the pairs before `(s, t)` bound, and of one kind give, the count `c`.
pub open spec fn credit_ok(a: Seq<Seq<usize>>, i: usize, s: usize, t: nat, c: int) -> bool {
    &&& credit_before(a, i, s, t, Credit::Endpoints) <= c
    &&& c == credit_before(a, i, s, t, Credit::Traced)
    &&& c <= credit_before(a, i, s, t, Credit::NoFarther)
}

/// The sum of a sequence of counts.
pub open spec fn count_sum(c: Seq<u128>) -> nat
    decreases c.len(),
{
    if c.len() == 0 {
        0
    } else {
        count_sum(c.drop_last()) + c.last() as nat
    }
}

/// Adding one to an entry adds one to the sum.
pub proof fn lemma_count_sum_bump(c: Seq<u128>, i: int)
    requires
        0 <= i < c.len(),
        c[i] < u128::MAX,
    ensures
        count_sum(c.update(i, (c[i] + 1) as u128)) == count_sum(c) + 1,
    decreases c.len(),
{
    let d = c.update(i, (c[i] + 1) as u128);
    if i < c.len() - 1 {
        lemma_count_sum_bump(c.drop_last(), i);
        assert(d.drop_last() =~= c.drop_last().update(i, (c[i] + 1) as u128));
    } else {
        assert(d.drop_last() =~= c.drop_last());
    }
}

/// Adds one to the count of each node of `ids`, which holds no node twice.
fn tally(counts: &mut Vec<u128>, ids: &Vec<usize>)
    requires
        ids@.no_duplicates(),
        forall|k: int| 0 <= k < ids@.len() ==> #[trigger] ids@[k] < old(counts)@.len(),
        forall|i: int| 0 <= i < old(counts)@.len() ==> #[trigger] old(counts)@[i] < u128::MAX,
    ensures
        final(counts)@.len() == old(counts)@.len(),
        forall|i: int|
            0 <= i < old(counts)@.len() ==> #[trigger] final(counts)@[i] == old(counts)@[i] + if ids@.contains(
                i as usize,
            ) {
                1int
            } else {
                0int
            },
        count_sum(final(counts)@) == count_sum(old(counts)@) + ids@.len(),
{
    let ghost c0 = counts@;
    let size = counts.len();
    let mut k: usize = 0;
    while k < ids.len()
        invariant
            size == c0.len(),
            ids@.no_duplicates(),
            forall|j: int| 0 <= j < ids@.len() ==> #[trigger] ids@[j] < c0.len(),
            forall|i: int| 0 <= i < c0.len() ==> #[trigger] c0[i] < u128::MAX,
            k <= ids@.len(),
            counts@.len() == c0.len(),
            forall|i: int|
                0 <= i < c0.len() ==> #[trigger] counts@[i] == c0[i] + if ids@.subrange(0, k as int).contains(
                    i as usize,
                ) {
                    1int
                } else {
                    0int
                },
            count_sum(counts@) == count_sum(c0) + k,
        decreases ids@.len() - k,
    {
        let id = ids[k];
        let ghost before = counts@;
        proof {
            assert(!ids@.subrange(0, k as int).contains(id)) by {
                if ids@.subrange(0, k as int).contains(id) {
                    let j = choose|j: int| 0 <= j < k && ids@.subrange(0, k as int)[j] == id;
                    assert(ids@[j] == ids@[k as int]);
                }
            }
            assert(before[id as int] == c0[id as int]);
            lemma_count_sum_bump(before, id as int);
        }
        counts.set(id, counts[id] + 1);
        proof {
            assert(counts@ == before.update(id as int, (before[id as int] + 1) as u128));
            assert forall|i: int| 0 <= i < c0.len() implies #[trigger] counts@[i] == c0[i] + if ids@.subrange(
                0,
                k + 1,
            ).contains(i as usize) {
                1int
            } else {
                0int
            } by {
                let now = ids@.subrange(0, k + 1);
                let was = ids@.subrange(0, k as int);
                assert(now =~= was.push(id));
                if i != id as int {
                    if now.contains(i as usize) {
                        let j = choose|j: int| 0 <= j < now.len() && now[j] == i as usize;
                        assert(now[k as int] == id);
                        assert(j < k);
                        assert(was[j] == i as usize);
                    }
                    if was.contains(i as usize) {
                        let j = choose|j: int| 0 <= j < was.len() && was[j] == i as usize;
                        assert(now[j] == i as usize);
                    }
                } else {
                    assert(now[k as int] == id);
                }
            }
        }
        k = k + 1;
    }
    assert(ids@.subrange(0, ids@.len() as int) =~= ids@);
}

/// How often `x` occurs in `s`.
pub open spec fn occurrences(s: Seq<Seq<char>>, x: Seq<char>) -> nat
    decreases s.len(),
{
    if s.len() == 0 {
        0
    } else {
        occurrences(s.drop_last(), x) + if s.last() == x {
            1nat
        } else {
            0nat
        }
    }
}

/// Appending `a` adds one occurrence of `a`.
pub proof fn lemma_occurrences_push(s: Seq<Seq<char>>, a: Seq<char>, x: Seq<char>)
    ensures
        occurrences(s.push(a), x) == occurrences(s, x) + if a == x {
            1nat
        } else {
            0nat
        },
{
    assert(s.push(a).drop_last() =~= s);
}

/// Crediting the nodes of the traced path from `s` to `t` credits every endpoint, exactly
/// the traced nodes, and only nodes no farther from `s` than `t`.
proof fn lemma_path_credit(
    a: Seq<Seq<usize>>,
    s: usize,
    t: usize,
    dist: Seq<Option<usize>>,
    parent: Seq<usize>,
    ids: Seq<usize>,
    c0: Seq<u128>,
    c1: Seq<u128>,
)
    requires
        search_result(a, s, dist, parent),
        parent == bfs_tree(a, s).1,
        s < a.len(),
        t < a.len(),
        s != t,
        dist[t as int] is Some,
        ids.len() == dist[t as int]->0 + 1,
        walk_between(a, ids, s, t),
        forall|k: int| 0 <= k < ids.len() ==> dist[#[trigger] ids[k] as int] == Some(k as usize),
        ids == traced_path(parent, t, dist[t as int]->0 as nat),
        c0.len() == a.len(),
        c1.len() == a.len(),
        forall|i: int|
            0 <= i < c0.len() ==> #[trigger] c1[i] == c0[i] + if ids.contains(i as usize) {
                1int
            } else {
                0int
            },
    ensures
        forall|k: usize|
            k < a.len() ==> {
                &&& credit(a, k, s, t, Credit::Endpoints) <= #[trigger] c1[k as int] - c0[k as int]
                &&& c1[k as int] - c0[k as int] == credit(a, k, s, t, Credit::Traced)
                &&& c1[k as int] - c0[k as int] <= credit(a, k, s, t, Credit::NoFarther)
            },
{
    lemma_distance_unique(a, s, t, dist[t as int]->0 as nat);
    assert forall|k: usize| k < a.len() implies {
        &&& credit(a, k, s, t, Credit::Endpoints) <= #[trigger] c1[k as int] - c0[k as int]
        &&& c1[k as int] - c0[k as int] == credit(a, k, s, t, Credit::Traced)
        &&& c1[k as int] - c0[k as int] <= credit(a, k, s, t, Credit::NoFarther)
    } by {
        if k == s {
            assert(ids[0] == k);
        }
        if k == t {
            assert(ids[ids.len() - 1] == k);
        }
        if ids.contains(k) {
            let j = choose|j: int| 0 <= j < ids.len() && ids[j] == k;
            assert(dist[ids[j] as int] == Some(j as usize));
            lemma_distance_unique(a, s, k, j as nat);
        }
    }
}

/// One more pair: the credits of the pairs before it grow by its own.
proof fn lemma_credit_step(a: Seq<Seq<usize>>, s: usize, t: usize, c0: Seq<u128>, c1: Seq<u128>)
    requires
        c0.len() == a.len(),
        c1.len() == a.len(),
        forall|k: usize| k < a.len() ==> credit_ok(a, k, s, t as nat, #[trigger] c0[k as int] as int),
        forall|k: usize|
            k < a.len() ==> {
                &&& credit(a, k, s, t, Credit::Endpoints) <= #[trigger] c1[k as int] - c0[k as int]
                &&& c1[k as int] - c0[k as int] == credit(a, k, s, t, Credit::Traced)
                &&& c1[k as int] - c0[k as int] <= credit(a, k, s, t, Credit::NoFarther)
            },
    ensures
        forall|k: usize| k < a.len() ==> credit_ok(a, k, s, (t + 1) as nat, #[trigger] c1[k as int] as int),
{
    assert forall|k: usize| k < a.len() implies credit_ok(a, k, s, (t + 1) as nat, #[trigger] c1[k as int] as int) by {
        assert(credit_ok(a, k, s, t as nat, c0[k as int] as int));
        assert(c1[k as int] - c0[k as int] == credit(a, k, s, t, Credit::Traced));
    }
}

/// An undirected multigraph over string labels. Adding the edge `(u, v)` appends `v` to the
/// neighbours of `u` and `u` to the neighbours of `v`; duplicates and self-loops are kept.
#[derive(Debug, Clone)]
pub struct Graph {
    labels: Vec<String>,
    adj: Vec<Vec<usize>>,
}

impl Graph {
    /// The node labels, by id.
    pub closed spec fn names(&self) -> Seq<Seq<char>> {
        self.labels@.map_values(|l: String| l@)
    }

    /// The neighbour ids of each node, by id.
    pub closed spec fn links(&self) -> Seq<Seq<usize>> {
        adj_view(self.adj@)
    }

    /// Labels are distinct, and every neighbour id names a node.
    pub closed spec fn wf(&self) -> bool {
        &&& self.labels@.len() == self.adj@.len()
        &&& self.labels@.len() <= usize::MAX
        &&& self.names().no_duplicates()
        &&& valid_adj(self.links())
    }

    /// Whether some node carries the label `x`.
    pub open spec fn has_node(&self, x: Seq<char>) -> bool {
        self.names().contains(x)
    }

    /// The id of the node labelled `x`.
    pub open spec fn id_of(&self, x: Seq<char>) -> int {
        self.names().index_of(x)
    }

    /// The labels of the neighbours of node `i`, in the order their edges were added.
    pub open spec fn neighbor_labels(&self, i: int) -> Seq<Seq<char>> {
        self.links()[i].map_values(|j: usize| self.names()[j as int])
    }

    /// The neighbours of the node labelled `x`; none where there is no such node.
    pub open spec fn neighbors(&self, x: Seq<char>) -> Seq<Seq<char>> {
        if self.has_node(x) {
            self.neighbor_labels(self.id_of(x))
        } else {
            Seq::empty()
        }
    }

    /// The hop distance between two labelled nodes.
    pub open spec fn hops(&self, x: Seq<char>, y: Seq<char>) -> nat {
        distance(self.links(), self.id_of(x) as usize, self.id_of(y) as usize)
    }

    /// Whether some walk joins two labelled nodes.
    pub open spec fn connected(&self, x: Seq<char>, y: Seq<char>) -> bool {
        reachable(self.links(), self.id_of(x) as usize, self.id_of(y) as usize)
    }

    proof fn lemma_id_of(&self, x: Seq<char>)
        requires
            self.wf(),
            self.has_node(x),
        ensures
            0 <= self.id_of(x) < self.names().len(),
            self.names()[self.id_of(x)] == x,
            forall|i: int| 0 <= i < self.names().len() && self.names()[i] == x ==> i == self.id_of(x),
    {
        let i = self.id_of(x);
        assert(self.names()[i] == x);
    }

    /// `self` is `g` after adding the edge `(u, v)`: the nodes are those of `g` followed by
    /// `u` and then `v` where each is new, so the old ids keep their labels; `v` is appended to the neighbours of `u` and `u`
    /// to those of `v` (so a self-loop appends `u` twice), and no other list changes.
    pub open spec fn edge_added(&self, g: Graph, u: Seq<char>, v: Seq<char>) -> bool {
        &&& forall|x: Seq<char>| #[trigger] self.has_node(x) <==> g.has_node(x) || x == u || x == v
        &&& forall|i: int| 0 <= i < g.names().len() ==> #[trigger] self.names()[i] == g.names()[i]
        &&& self.names() == (if g.has_node(u) {
            g.names()
        } else {
            g.names().push(u)
        }) + (if g.has_node(v) || v == u {
            Seq::<Seq<char>>::empty()
        } else {
            seq![v]
        })
        &&& u != v ==> self.neighbors(u) == g.neighbors(u).push(v)
        &&& u != v ==> self.neighbors(v) == g.neighbors(v).push(u)
        &&& u == v ==> self.neighbors(u) == g.neighbors(u).push(u).push(u)
        &&& forall|x: Seq<char>| x != u && x != v ==> #[trigger] self.neighbors(x) == g.neighbors(x)
    }

    /// Each label occurs in the neighbours of another as often as the other occurs in its own.
    pub open spec fn symmetric(&self) -> bool {
        forall|x: Seq<char>, y: Seq<char>|
            #[trigger] occurrences(self.neighbors(x), y) == occurrences(self.neighbors(y), x)
    }

    /// What a hop-distance query answers: `NodeNotFound` exactly where a label names no node,
    /// `Disconnected` exactly where both exist but no walk joins them, and otherwise the least
    /// number of edges on a walk from `start` to `end`.
    pub open spec fn distance_answer(&self, start: Seq<char>, end: Seq<char>, r: Result<usize, QueryError>) -> bool {
        &&& (r == Err::<usize, QueryError>(QueryError::NodeNotFound) <==> !self.has_node(start) || !self.has_node(end))
        &&& self.has_node(start) && self.has_node(end) ==> (r is Ok <==> self.connected(start, end))
        &&& self.has_node(start) && self.has_node(end) && !self.connected(start, end) ==> r
            == Err::<usize, QueryError>(QueryError::Disconnected)
        &&& r matches Ok(d) ==> d == self.hops(start, end) && is_distance(
            self.links(),
            self.id_of(start) as usize,
            self.id_of(end) as usize,
            d as nat,
        )
    }

    /// What a shortest-path query answers: no path where a label names no node or no walk
    /// joins the two; otherwise one path, from `start` to `end`, each label a neighbour of the
    /// one before, whose `k`-th node lies `k` hops from `start`, so that it has
    /// `hops(start, end) + 1` nodes. It is the path that the parent links of a breadth-first
    /// search from `start` lead back along from `end`.
    pub open spec fn path_answer(&self, start: Seq<char>, end: Seq<char>, r: Seq<Seq<Seq<char>>>) -> bool {
        &&& r.len() <= 1
        &&& (r.len() == 1 <==> self.has_node(start) && self.has_node(end) && self.connected(start, end))
        &&& r.len() == 1 ==> {
            let p = r[0];
            &&& p.len() == self.hops(start, end) + 1
            &&& p[0] == start
            &&& p.last() == end
            &&& forall|k: int| 0 <= k < p.len() ==> self.has_node(#[trigger] p[k])
            &&& forall|k: int| 0 <= k < p.len() - 1 ==> #[trigger] self.neighbors(p[k]).contains(p[k + 1])
            &&& forall|k: int| 0 <= k < p.len() ==> #[trigger] self.hops(start, p[k]) == k
            &&& p == traced_path(
                bfs_tree(self.links(), self.id_of(start) as usize).1,
                self.id_of(end) as usize,
                self.hops(start, end),
            ).map_values(|i: usize| self.names()[i as int])
        }
    }

    proof fn lemma_symmetry_kept(&self, g: Graph, u: Seq<char>, v: Seq<char>)
        requires
            self.edge_added(g, u, v),
        ensures
            g.symmetric() ==> self.symmetric(),
            forall|x: Seq<char>, y: Seq<char>|
                #[trigger] occurrences(self.neighbors(x), y) == occurrences(g.neighbors(x), y) + (
                if x == u && y == v {
                    1int
                } else {
                    0int
                }) + (if x == v && y == u {
                    1int
                } else {
                    0int
                }),
    {
        assert forall|x: Seq<char>, y: Seq<char>|
            #[trigger] occurrences(self.neighbors(x), y) == occurrences(g.neighbors(x), y) + (if x
                == u && y == v {
                1int
            } else {
                0int
            }) + (if x == v && y == u {
                1int
            } else {
                0int
            }) by {
            if u == v && x == u {
                lemma_occurrences_push(g.neighbors(u).push(u), u, y);
                lemma_occurrences_push(g.neighbors(u), u, y);
            } else if x == u {
                lemma_occurrences_push(g.neighbors(u), v, y);
            } else if x == v {
                lemma_occurrences_push(g.neighbors(v), u, y);
            }
        }
        if g.symmetric() {
            assert forall|x: Seq<char>, y: Seq<char>|
                #[trigger] occurrences(self.neighbors(x), y) == occurrences(self.neighbors(y), x) by {
                assert(occurrences(g.neighbors(x), y) == occurrences(g.neighbors(y), x));
                assert(occurrences(self.neighbors(y), x) == occurrences(g.neighbors(y), x) + (if y
                    == u && x == v {
                    1int
                } else {
                    0int
                }) + (if y == v && x == u {
                    1int
                } else {
                    0int
                }));
            }
        }
    }

    /// What a well-formed graph guarantees: labels are distinct, every node has a neighbour
    /// list, and every neighbour id names a node.
    pub proof fn lemma_wf(&self)
        requires
            self.wf(),
        ensures
            self.names().no_duplicates(),
            self.links().len() == self.names().len(),
            self.names().len() <= usize::MAX,
            valid_adj(self.links()),
    {
    }

    /// Every node is reachable from the node labelled `x0`, read over ids, exactly when every
    /// label is connected to `x0`.
    proof fn lemma_all_reachable_labels(&self, x0: Seq<char>)
        requires
            self.wf(),
            self.has_node(x0),
        ensures
            all_reachable(self.links(), self.id_of(x0) as usize) <==> forall|x: Seq<char>|
                self.has_node(x) ==> #[trigger] self.connected(x0, x),
    {
        let s = self.id_of(x0) as usize;
        if all_reachable(self.links(), s) {
            assert forall|x: Seq<char>| self.has_node(x) implies #[trigger] self.connected(x0, x) by {
                self.lemma_id_of(x);
                assert(reachable(self.links(), s, self.id_of(x) as usize));
            }
        }
        if forall|x: Seq<char>| self.has_node(x) ==> #[trigger] self.connected(x0, x) {
            assert forall|v: usize| v < self.links().len() implies #[trigger] reachable(self.links(), s, v) by {
                let x = self.names()[v as int];
                assert(self.has_node(x));
                self.lemma_id_of(x);
                assert(self.connected(x0, x));
            }
        }
    }

    /// The empty graph.
    pub fn new() -> (g: Self)
        ensures
            g.wf(),
            g.names().len() == 0,
            forall|x: Seq<char>| !g.has_node(x),
            g.symmetric(),
    {
        let g = Graph { labels: Vec::new(), adj: Vec::new() };
        assert(g.names().len() == 0);
        assert forall|x: Seq<char>, y: Seq<char>|
            #[trigger] occurrences(g.neighbors(x), y) == occurrences(g.neighbors(y), x) by {
            assert(!g.has_node(x) && !g.has_node(y));
        }
        g
    }

    /// The id of the node labelled `x`, if there is one.
    fn find(&self, x: &String) -> (r: Option<usize>)
        requires
            self.wf(),
        ensures
            r is None <==> !self.has_node(x@),
            r matches Some(i) ==> i == self.id_of(x@) && i < self.names().len(),
    {
        let mut i: usize = 0;
        while i < self.labels.len()
            invariant
                i <= self.labels@.len(),
                self.wf(),
                forall|k: int| 0 <= k < i ==> self.names()[k] != x@,
            decreases self.labels@.len() - i,
        {
            if self.labels[i] == *x {
                proof {
                    assert(self.names()[i as int] == x@);
                    self.lemma_id_of(x@);
                }
                return Some(i);
            }
            i = i + 1;
        }
        None
    }

    /// The id of the node labelled `x`, if there is one.
    fn lookup(&self, x: &str) -> (r: Option<usize>)
        requires
            self.wf(),
        ensures
            r is None <==> !self.has_node(x@),
            r matches Some(i) ==> i == self.id_of(x@) && i < self.names().len(),
    {
        let key = x.to_owned();
        self.find(&key)
    }

    /// The id of the node labelled `x`, adding a node without neighbours where there is none.
    fn intern(&mut self, x: String) -> (id: usize)
        requires
            old(self).wf(),
        ensures
            final(self).wf(),
            id < final(self).names().len(),
            final(self).names()[id as int] == x@,
            old(self).has_node(x@) ==> final(self).names() == old(self).names() && final(self).links() == old(self).links() && id == old(self).id_of(x@),
            !old(self).has_node(x@) ==> final(self).names() == old(self).names().push(x@)
                && final(self).links() == old(self).links().push(Seq::empty()) && id
                == old(self).names().len(),
    {
        match self.find(&x) {
            Some(i) => i,
            None => {
                self.labels.push(x);
                self.adj.push(Vec::new());
                let id = self.labels.len() - 1;
                proof {
                    assert(self.names() =~= old(self).names().push(x@));
                    assert(self.links() =~= old(self).links().push(Seq::empty()));
                    assert forall|i: int, j: int|
                        0 <= i < self.names().len() && 0 <= j < self.names().len() && i != j
                        implies self.names()[i] != self.names()[j] by {
                        if i < id && j < id {
                        } else if i < id {
                            assert(old(self).names()[i] != x@);
                        } else {
                            assert(old(self).names()[j] != x@);
                        }
                    }
                    assert forall|i: int, j: int|
                        0 <= i < self.links().len() && 0 <= j < self.links()[i].len() implies
                        #[trigger] self.links()[i][j] < self.links().len() by {
                        if i < id {
                            assert(old(self).links()[i][j] < old(self).links().len());
                        }
                    }
                }
                id
            },
        }
    }

    /// Adds the undirected edge `(u, v)`: `v` is appended to the neighbours of `u`, then `u`
    /// to the neighbours of `v`, creating either node if it is new. A self-loop adds `u`
    /// twice to its own list.
    pub fn add_edge(&mut self, u: String, v: String)
        requires
            old(self).wf(),
        ensures
            final(self).wf(),
            final(self).edge_added(*old(self), u@, v@),
            old(self).symmetric() ==> final(self).symmetric(),
    {
        let ghost g0 = *old(self);
        let ghost su = u@;
        let ghost sv = v@;
        let iu = self.intern(u);
        let ghost g1 = *self;
        let iv = self.intern(v);
        let ghost g2 = *self;
        proof {
            assert(g2.names()[iu as int] == su);
            if su == sv {
                g1.lemma_id_of(sv);
            }
        }
        let ghost a2 = self.adj@;
        self.adj[iu].push(iv);
        let ghost a3 = self.adj@;
        self.adj[iv].push(iu);
        proof {
            assert(a3 == a2.update(iu as int, a3[iu as int]));
            assert(self.adj@ == a3.update(iv as int, self.adj@[iv as int]));
            assert forall|i: int|
                0 <= i < self.links().len() && i != iu && i != iv implies self.links()[i]
                == g2.links()[i] by {
                assert(self.adj@[i] == a2[i]);
            }
            self.lemma_add_edge(g0, g1, g2, su, sv, iu, iv);
            self.lemma_symmetry_kept(g0, su, sv);
        }
    }

    proof fn lemma_add_edge(
        &self,
        g0: Graph,
        g1: Graph,
        g2: Graph,
        su: Seq<char>,
        sv: Seq<char>,
        iu: usize,
        iv: usize,
    )
        requires
            g0.wf(),
            g1.wf(),
            g2.wf(),
            iu < g1.names().len(),
            g1.names()[iu as int] == su,
            g0.has_node(su) ==> g1.names() == g0.names() && g1.links() == g0.links() && iu
                == g0.id_of(su),
            !g0.has_node(su) ==> g1.names() == g0.names().push(su) && g1.links() == g0.links().push(
                Seq::empty(),
            ) && iu == g0.names().len(),
            iv < g2.names().len(),
            g2.names()[iv as int] == sv,
            g1.has_node(sv) ==> g2.names() == g1.names() && g2.links() == g1.links() && iv
                == g1.id_of(sv),
            !g1.has_node(sv) ==> g2.names() == g1.names().push(sv) && g2.links() == g1.links().push(
                Seq::empty(),
            ) && iv == g1.names().len(),
            self.labels@ == g2.labels@,
            self.adj@.len() == g2.adj@.len(),
            (su == sv) == (iu == iv),
            forall|i: int|
                0 <= i < self.links().len() && i != iu && i != iv ==> self.links()[i] == g2.links()[i],
            iu != iv ==> self.links()[iu as int] == g2.links()[iu as int].push(iv),
            iu != iv ==> self.links()[iv as int] == g2.links()[iv as int].push(iu),
            iu == iv ==> self.links()[iu as int] == g2.links()[iu as int].push(iv).push(iu),
        ensures
            self.wf(),
            forall|x: Seq<char>|
                #[trigger] self.has_node(x) <==> g0.has_node(x) || x == su || x == sv,
            forall|i: int| 0 <= i < g0.names().len() ==> #[trigger] self.names()[i] == g0.names()[i],
            su != sv ==> self.neighbors(su) == g0.neighbors(su).push(sv),
            su != sv ==> self.neighbors(sv) == g0.neighbors(sv).push(su),
            su == sv ==> self.neighbors(su) == g0.neighbors(su).push(su).push(su),
            forall|x: Seq<char>| x != su && x != sv ==> #[trigger] self.neighbors(x) == g0.neighbors(x),
            self.names() == (if g0.has_node(su) {
                g0.names()
            } else {
                g0.names().push(su)
            }) + (if g0.has_node(sv) || sv == su {
                Seq::<Seq<char>>::empty()
            } else {
                seq![sv]
            }),
    {
        assert(g1.has_node(sv) <==> g0.has_node(sv) || sv == su) by {
            if g0.has_node(sv) {
                let k = g0.names().index_of(sv);
                assert(g1.names()[k] == sv);
            }
            if sv == su {
                assert(g1.names()[iu as int] == su);
            }
            if g1.has_node(sv) && sv != su {
                let k = g1.names().index_of(sv);
                if !g0.has_node(su) && k == g0.names().len() {
                    assert(g1.names()[k] == su);
                }
                assert(g0.names()[k] == sv);
            }
        }
        assert(self.names() =~= (if g0.has_node(su) {
            g0.names()
        } else {
            g0.names().push(su)
        }) + (if g0.has_node(sv) || sv == su {
            Seq::<Seq<char>>::empty()
        } else {
            seq![sv]
        }));
        let n0 = g0.names().len() as int;
        let n = self.names().len() as int;
        assert(self.names() == g2.names());
        assert(self.links().len() == n);
        assert forall|k: int| 0 <= k < g1.names().len() implies #[trigger] g2.names()[k]
            == g1.names()[k] by {}
        assert forall|k: int| 0 <= k < n0 implies #[trigger] self.names()[k] == g0.names()[k] by {
            assert(g1.names()[k] == g0.names()[k]);
        }
        assert forall|i: int, j: int|
            0 <= i < self.links().len() && 0 <= j < self.links()[i].len() implies #[trigger] self.links()[i][j]
            < self.links().len() by {
            if i != iu && i != iv {
                assert(self.links()[i] == g2.links()[i]);
            }
        }
        assert forall|x: Seq<char>| #[trigger] self.has_node(x) <==> g0.has_node(x) || x == su || x
            == sv by {
            if g0.has_node(x) {
                let k = g0.names().index_of(x);
                assert(self.names()[k] == x);
            }
            if x == su {
                assert(self.names()[iu as int] == su);
            }
            if x == sv {
                assert(self.names()[iv as int] == sv);
            }
            if self.has_node(x) && x != su && x != sv {
                let k = self.names().index_of(x);
                if k >= g1.names().len() {
                    assert(g2.names() != g1.names());
                    assert(k == iv);
                } else if k >= n0 {
                    assert(g1.names() != g0.names());
                    assert(k == iu);
                    assert(g1.names()[k] == su);
                }
                assert(g0.names()[k] == x);
            }
        }
        // the rows of the two endpoints, as grown from the rows they had before
        let ru: Seq<usize> = if su == sv {
            seq![iu, iu]
        } else {
            seq![iv]
        };
        let rv: Seq<usize> = seq![iu];
        assert(g2.links()[iu as int] == if iu < n0 {
            g0.links()[iu as int]
        } else {
            Seq::<usize>::empty()
        });
        if su != sv {
            assert(iu != iv);
            assert(g2.links()[iv as int] == if iv < n0 {
                g0.links()[iv as int]
            } else {
                Seq::<usize>::empty()
            }) by {
                if g0.has_node(sv) {
                    g0.lemma_id_of(sv);
                    assert(g1.names()[g0.id_of(sv)] == sv);
                    g1.lemma_id_of(sv);
                }
            }
            assert(self.links()[iu as int] =~= g2.links()[iu as int] + ru);
            assert(self.links()[iv as int] =~= g2.links()[iv as int] + rv);
        } else {
            assert(g1.has_node(sv));
            g1.lemma_id_of(sv);
            assert(iu == iv);
            assert(self.links()[iu as int] =~= g2.links()[iu as int] + ru);
        }
        self.lemma_row(g0, iu as int, ru);
        if su != sv {
            self.lemma_row(g0, iv as int, rv);
        }
        self.lemma_id_of(su);
        self.lemma_id_of(sv);
        if g0.has_node(su) {
            g0.lemma_id_of(su);
        }
        if g0.has_node(sv) {
            g0.lemma_id_of(sv);
            g1.lemma_id_of(sv);
        }
        assert(ru.map_values(|j: usize| self.names()[j as int]) =~= if su == sv {
            seq![su, su]
        } else {
            seq![sv]
        });
        assert(rv.map_values(|j: usize| self.names()[j as int]) =~= seq![su]);
        if su == sv {
            assert(self.neighbors(su) =~= g0.neighbors(su).push(su).push(su));
        } else {
            assert(self.neighbors(su) =~= g0.neighbors(su).push(sv));
            assert(self.neighbors(sv) =~= g0.neighbors(sv).push(su));
        }
        assert forall|x: Seq<char>| x != su && x != sv implies #[trigger] self.neighbors(x)
            == g0.neighbors(x) by {
            if g0.has_node(x) {
                g0.lemma_id_of(x);
                self.lemma_id_of(x);
                let k = g0.id_of(x);
                assert(self.names()[k] == x);
                assert(k != iu && k != iv);
                assert(g1.links()[k] == g0.links()[k]);
                assert(g2.links()[k] == g1.links()[k]);
                assert(self.links()[k] =~= g0.links()[k] + Seq::<usize>::empty());
                self.lemma_row(g0, k, Seq::<usize>::empty());
                assert(self.neighbors(x) =~= g0.neighbors(x));
            }
        }
    }

    /// Row `i` of `self` is row `i` of `g` (empty where `g` has no node `i`) followed by
    /// `extra`; the labels of `g` are a prefix of those of `self`.
    proof fn lemma_row(&self, g: Graph, i: int, extra: Seq<usize>)
        requires
            g.wf(),
            self.wf(),
            g.names().len() <= self.names().len(),
            forall|k: int| 0 <= k < g.names().len() ==> #[trigger] self.names()[k] == g.names()[k],
            0 <= i < self.names().len(),
            self.links()[i] == (if i < g.names().len() {
                g.links()[i]
            } else {
                Seq::<usize>::empty()
            }) + extra,
        ensures
            self.neighbor_labels(i) == (if i < g.names().len() {
                g.neighbor_labels(i)
            } else {
                Seq::<Seq<char>>::empty()
            }) + extra.map_values(|j: usize| self.names()[j as int]),
    {
        if i < g.names().len() {
            assert forall|k: int| 0 <= k < g.links()[i].len() implies self.names()[g.links()[i][k] as int]
                == g.names()[g.links()[i][k] as int] by {
                assert(g.links()[i][k] < g.links().len());
            }
        }
        let lhs = self.neighbor_labels(i);
        let rhs = (if i < g.names().len() {
            g.neighbor_labels(i)
        } else {
            Seq::<Seq<char>>::empty()
        }) + extra.map_values(|j: usize| self.names()[j as int]);
        assert(lhs =~= rhs);
    }

    /// A copy of the adjacency lists: each node's label with its neighbours' labels, in the
    /// order their edges were added.
    pub fn get_adj_list(&self) -> (r: Vec<(String, Vec<String>)>)
        requires
            self.wf(),
        ensures
            r@.len() == self.names().len(),
            forall|i: int|
                0 <= i < r@.len() ==> {
                    &&& (#[trigger] r@[i]).0@ == self.names()[i]
                    &&& r@[i].1@.map_values(|l: String| l@) == self.neighbor_labels(i)
                },
    {
        let mut r: Vec<(String, Vec<String>)> = Vec::new();
        let mut i: usize = 0;
        while i < self.labels.len()
            invariant
                self.wf(),
                i <= self.labels@.len(),
                r@.len() == i,
                forall|k: int|
                    0 <= k < i ==> {
                        &&& (#[trigger] r@[k]).0@ == self.names()[k]
                        &&& r@[k].1@.map_values(|l: String| l@) == self.neighbor_labels(k)
                    },
            decreases self.labels@.len() - i,
        {
            let nbrs = &self.adj[i];
            let mut out: Vec<String> = Vec::new();
            let mut j: usize = 0;
            while j < nbrs.len()
                invariant
                    self.wf(),
                    i < self.labels@.len(),
                    nbrs@ == self.links()[i as int],
                    j <= nbrs@.len(),
                    out@.len() == j,
                    forall|k: int|
                        0 <= k < j ==> (#[trigger] out@[k])@ == self.names()[nbrs@[k] as int],
                decreases nbrs@.len() - j,
            {
                let w = nbrs[j];
                assert(self.links()[i as int][j as int] < self.links().len());
                out.push(self.labels[w].clone());
                j = j + 1;
            }
            assert(out@.map_values(|l: String| l@) =~= self.neighbor_labels(i as int));
            r.push((self.labels[i].clone(), out));
            i = i + 1;
        }
        r
    }

    /// The degree of every node, as `(label, number of neighbour entries)`: duplicate edges
    /// count each time and a self-loop counts twice.
    pub fn degree_centrality(&self) -> (r: Vec<(String, usize)>)
        requires
            self.wf(),
        ensures
            r@.len() == self.names().len(),
            forall|i: int|
                0 <= i < r@.len() ==> {
                    &&& (#[trigger] r@[i]).0@ == self.names()[i]
                    &&& r@[i].1 == self.neighbors(self.names()[i]).len()
                },
    {
        let mut r: Vec<(String, usize)> = Vec::new();
        let mut i: usize = 0;
        while i < self.labels.len()
            invariant
                self.wf(),
                i <= self.labels@.len(),
                r@.len() == i,
                forall|k: int|
                    0 <= k < i ==> {
                        &&& (#[trigger] r@[k]).0@ == self.names()[k]
                        &&& r@[k].1 == self.neighbor_labels(k).len()
                    },
            decreases self.labels@.len() - i,
        {
            r.push((self.labels[i].clone(), self.adj[i].len()));
            i = i + 1;
        }
        proof {
            assert forall|i: int| 0 <= i < r@.len() implies r@[i].1 == self.neighbors(
                self.names()[i],
            ).len() by {
                assert(self.has_node(self.names()[i]));
                self.lemma_id_of(self.names()[i]);
            }
        }
        r
    }
    proof fn lemma_label_step(&self, i: int, j: usize)
        requires
            self.wf(),
            0 <= i < self.names().len(),
            self.links()[i].contains(j),
        ensures
            self.neighbors(self.names()[i]).contains(self.names()[j as int]),
    {
        let x = self.names()[i];
        assert(self.has_node(x));
        self.lemma_id_of(x);
        let k = choose|k: int| 0 <= k < self.links()[i].len() && self.links()[i][k] == j;
        assert(self.neighbor_labels(i)[k] == self.names()[j as int]);
    }

    /// The hop distance from `start` to `end`: `NodeNotFound` where either label names no
    /// node, `Disconnected` where no walk joins them. A node is at distance zero from itself.
    pub fn hop_distance(&self, start: &str, end: &str) -> (r: Result<usize, QueryError>)
        requires
            self.wf(),
        ensures
            self.distance_answer(start@, end@, r),
    {
        let s = match self.lookup(start) {
            Some(i) => i,
            None => return Err(QueryError::NodeNotFound),
        };
        let t = match self.lookup(end) {
            Some(i) => i,
            None => return Err(QueryError::NodeNotFound),
        };
        let (dist, _parent) = search(&self.adj, s);
        match dist[t] {
            Some(d) => {
                proof {
                    lemma_distance_unique(self.links(), s, t, d as nat);
                }
                Ok(d)
            },
            None => Err(QueryError::Disconnected),
        }
    }

    /// The labels of the nodes `ids`, in order.
    fn label_path(&self, ids: &Vec<usize>) -> (r: Vec<String>)
        requires
            self.wf(),
            forall|k: int| 0 <= k < ids@.len() ==> #[trigger] ids@[k] < self.names().len(),
        ensures
            r@.len() == ids@.len(),
            forall|k: int| 0 <= k < ids@.len() ==> (#[trigger] r@[k])@ == self.names()[ids@[k] as int],
    {
        let mut r: Vec<String> = Vec::new();
        let mut i: usize = 0;
        while i < ids.len()
            invariant
                self.wf(),
                forall|k: int| 0 <= k < ids@.len() ==> #[trigger] ids@[k] < self.names().len(),
                i <= ids@.len(),
                r@.len() == i,
                forall|k: int| 0 <= k < i ==> (#[trigger] r@[k])@ == self.names()[ids@[k] as int],
            decreases ids@.len() - i,
        {
            let id = ids[i];
            assert(id < self.names().len());
            r.push(self.labels[id].clone());
            i = i + 1;
        }
        r
    }

    /// A shortest path from `start` to `end`, as the labels of its nodes from `start` to
    /// `end` inclusive: the one found by breadth-first search, where each node keeps the
    /// neighbour through which it was first reached. No path where either label names no
    /// node or no walk joins them; `[start]` where the two are the same node.
    pub fn shortest_paths(&self, start: &str, end: &str) -> (r: Vec<Vec<String>>)
        requires
            self.wf(),
        ensures
            self.path_answer(start@, end@, r@.map_values(|q: Vec<String>| q@.map_values(|l: String| l@))),
    {
        let mut r: Vec<Vec<String>> = Vec::new();
        let s = match self.lookup(start) {
            Some(i) => i,
            None => return r,
        };
        let t = match self.lookup(end) {
            Some(i) => i,
            None => return r,
        };
        let (dist, parent) = search(&self.adj, s);
        if dist[t].is_none() {
            return r;
        }
        let ids = trace_path(&self.adj, &dist, &parent, s, t);
        let ghost a = self.links();
        proof {
            assert forall|k: int| 0 <= k < ids@.len() implies #[trigger] ids@[k] < self.names().len() by {
                assert(ids@[k] < a.len());
            }
        }
        let path = self.label_path(&ids);
        proof {
            let p = path@.map_values(|l: String| l@);
            lemma_distance_unique(a, s, t, dist@[t as int]->0 as nat);
            assert(p =~= ids@.map_values(|i: usize| self.names()[i as int]));
            assert(ids@[0] == s);
            assert(ids@[ids@.len() - 1] == t);
            assert forall|k: int| 0 <= k < p.len() implies self.has_node(#[trigger] p[k]) && self.id_of(p[k]) == ids@[k] by {
                assert(ids@[k] < a.len());
                assert(p[k] == self.names()[ids@[k] as int]);
                assert(self.has_node(p[k]));
                self.lemma_id_of(p[k]);
            }
            assert forall|k: int| 0 <= k < p.len() - 1 implies #[trigger] self.neighbors(p[k]).contains(p[k + 1]) by {
                assert(crate::bfs::edge_at(a, ids@, k));
                assert(ids@[k] < a.len());
                self.lemma_label_step(ids@[k] as int, ids@[k + 1]);
                assert(p[k] == self.names()[ids@[k] as int]);
                assert(p[k + 1] == self.names()[ids@[k + 1] as int]);
            }
            assert forall|k: int| 0 <= k < p.len() implies #[trigger] self.hops(start@, p[k]) == k by {
                assert(self.has_node(p[k]) && self.id_of(p[k]) == ids@[k]);
                assert(dist@[ids@[k] as int] == Some(k as usize));
                assert(ids@[k] < a.len());
                lemma_distance_unique(a, s, ids@[k], k as nat);
            }
        }
        r.push(path);
        proof {
            let q = r@.map_values(|q: Vec<String>| q@.map_values(|l: String| l@));
            assert(q.len() == 1);
            assert(q[0] == path@.map_values(|l: String| l@));
        }
        r
    }

    /// The closeness of `start`, from the sum of its hop distances to every node.
    pub fn closeness_centrality(&self, start: &str) -> (r: Closeness)
        requires
            self.wf(),
        ensures
            !(r is Undefined) <==> self.has_node(start@) && all_reachable(
                self.links(),
                self.id_of(start@) as usize,
            ),
            !(r is Undefined) <==> self.has_node(start@) && forall|x: Seq<char>|
                self.has_node(x) ==> #[trigger] self.connected(start@, x),
            !self.has_node(start@) ==> r == Closeness::Undefined,
            r matches Closeness::Reciprocal { total_distance } ==> total_distance > 0,
            self.has_node(start@) ==> {
                let s = self.id_of(start@) as usize;
                let total = total_distance(self.links(), s, self.names().len());
                &&& all_reachable(self.links(), s) ==> total < u128::MAX
                &&& !all_reachable(self.links(), s) ==> r == Closeness::Undefined
                &&& all_reachable(self.links(), s) && total == 0 ==> r == Closeness::Degenerate
                &&& all_reachable(self.links(), s) && total > 0 ==> r == (Closeness::Reciprocal {
                    total_distance: total as u128,
                })
            },
    {
        let s = match self.lookup(start) {
            Some(i) => i,
            None => return Closeness::Undefined,
        };
        proof {
            self.lemma_all_reachable_labels(start@);
        }
        let (dist, parent) = search(&self.adj, s);
        let ghost a = self.links();
        let n = dist.len();
        let mut total: u128 = 0;
        let mut v: usize = 0;
        while v < n
            invariant
                self.wf(),
                a == self.links(),
                self.has_node(start@),
                s == self.id_of(start@),
                search_result(a, s, dist@, parent@),
                n == a.len(),
                v <= n,
                total == total_distance(a, s, v as nat),
                total <= v * (usize::MAX as int),
                forall|w: usize| w < v ==> #[trigger] reachable(a, s, w),
            decreases n - v,
        {
            match dist[v] {
                Some(d) => {
                    proof {
                        lemma_distance_unique(a, s, v, d as nat);
                        let m = usize::MAX as int;
                        assert(total + d <= (v + 1) * m) by (nonlinear_arith)
                            requires
                                total <= v * m,
                                d <= m,
                        ;
                        assert((v + 1) * m <= m * m) by (nonlinear_arith)
                            requires
                                v + 1 <= m,
                                0 <= m,
                        ;
                        assert(m * m < u128::MAX) by (nonlinear_arith)
                            requires
                                m <= 0xffff_ffff_ffff_ffff,
                                0 <= m,
                        ;
                    }
                    total = total + d as u128;
                },
                None => {
                    proof {
                        assert(!reachable(a, s, v));
                        assert(a.len() == self.names().len());
                        self.lemma_all_reachable_labels(start@);
                    }
                    return Closeness::Undefined;
                },
            }
            v = v + 1;
        }
        proof {
            let m = usize::MAX as int;
            assert(n <= m);
            assert(n * m <= m * m) by (nonlinear_arith)
                requires
                    n <= m,
                    0 <= n,
            ;
            assert(m * m < u128::MAX) by (nonlinear_arith)
                requires
                    m <= 0xffff_ffff_ffff_ffff,
                    0 <= m,
            ;
        }
        if total == 0 {
            Closeness::Degenerate
        } else {
            Closeness::Reciprocal { total_distance: total }
        }
    }

    /// The entry of node `id` in the betweenness result: its count `c` is its credit from the
    /// traced paths, at least one, at least its credit as an endpoint and at most its credit
    /// as a node no farther from the source than the target.
    pub open spec fn betweenness_entry(&self, id: usize, c: u128) -> bool {
        let n = self.names().len();
        &&& c == pair_credit(self.links(), id, n, Credit::Traced)
        &&& c > 0
        &&& pair_credit(self.links(), id, n, Credit::Endpoints) <= c
        &&& c <= pair_credit(self.links(), id, n, Credit::NoFarther)
    }

    /// For every ordered pair of distinct nodes joined by a walk, the shortest path that
    /// `shortest_paths` finds is credited to each of its nodes, endpoints included. The nodes
    /// credited at least once are given, each once, with their counts; the others are left
    /// out. This runs one search per pair: O(V^2) searches of O(V + E).
    pub fn betweenness_centrality(&self) -> (r: Vec<(String, u128)>)
        requires
            self.wf(),
        ensures
            forall|k: int|
                #![trigger r@[k]]
                0 <= k < r@.len() ==> exists|id: usize|
                    id < self.names().len() && #[trigger] self.names()[id as int] == r@[k].0@
                        && self.betweenness_entry(id, r@[k].1),
            forall|id: usize|
                id < self.names().len() && pair_credit(
                    self.links(),
                    id,
                    self.names().len(),
                    Credit::Traced,
                ) > 0 ==> exists|k: int|
                    0 <= k < r@.len() && (#[trigger] r@[k]).0@ == self.names()[id as int],
            forall|k: int, l: int| 0 <= k < l < r@.len() ==> r@[k].0@ != r@[l].0@,
            count_sum(r@.map_values(|e: (String, u128)| e.1)) == pair_total(
                self.links(),
                self.names().len(),
            ),
    {
        let ghost a = self.links();
        let n = self.labels.len();
        let mut counts: Vec<u128> = Vec::new();
        let mut i: usize = 0;
        while i < n
            invariant
                i <= n,
                counts@.len() == i,
                forall|k: int| 0 <= k < i ==> counts@[k] == 0,
                count_sum(counts@) == 0,
            decreases n - i,
        {
            proof {
                assert(counts@.push(0u128).drop_last() =~= counts@);
            }
            counts.push(0);
            i = i + 1;
        }
        let ghost m = usize::MAX as int;
        proof {
            assert(m * m < u128::MAX) by (nonlinear_arith)
                requires
                    m <= 0xffff_ffff_ffff_ffff,
                    0 <= m,
            ;
        }
        let mut s: usize = 0;
        while s < n
            invariant
                self.wf(),
                a == self.links(),
                n == a.len(),
                m == usize::MAX as int,
                m * m < u128::MAX,
                s <= n,
                counts@.len() == n,
                forall|k: int| 0 <= k < n ==> #[trigger] counts@[k] <= s * n,
                count_sum(counts@) == pair_total(a, s as nat),
                forall|k: usize| k < n ==> credit_ok(a, k, s, 0, #[trigger] counts@[k as int] as int),
            decreases n - s,
        {
            let mut t: usize = 0;
            while t < n
                invariant
                    self.wf(),
                    a == self.links(),
                    n == a.len(),
                    m == usize::MAX as int,
                    m * m < u128::MAX,
                    s < n,
                    t <= n,
                    counts@.len() == n,
                    forall|k: int| 0 <= k < n ==> #[trigger] counts@[k] <= s * n + t,
                    count_sum(counts@) == pair_total(a, s as nat) + row_total(a, s, t as nat),
                    forall|k: usize|
                        k < n ==> credit_ok(a, k, s, t as nat, #[trigger] counts@[k as int] as int),
                decreases n - t,
            {
                proof {
                    assert(s * n + t < m * m) by (nonlinear_arith)
                        requires
                            s < n,
                            t < n,
                            n <= m,
                    ;
                }
                let ghost c0 = counts@;
                if s != t {
                    let (dist, parent) = search(&self.adj, s);
                    if dist[t].is_some() {
                        let ids = trace_path(&self.adj, &dist, &parent, s, t);
                        proof {
                            lemma_distance_unique(a, s, t, dist@[t as int]->0 as nat);
                            assert(ids@.no_duplicates()) by {
                                assert forall|x: int, y: int|
                                    0 <= x < ids@.len() && 0 <= y < ids@.len() && x != y implies ids@[x]
                                    != ids@[y] by {
                                    assert(dist@[ids@[x] as int] == Some(x as usize));
                                    assert(dist@[ids@[y] as int] == Some(y as usize));
                                }
                            }
                            assert forall|k: int| 0 <= k < ids@.len() implies #[trigger] ids@[k] < counts@.len() by {
                                assert(ids@[k] < a.len());
                            }
                        }
                        tally(&mut counts, &ids);
                        proof {
                            lemma_path_credit(a, s, t, dist@, parent@, ids@, c0, counts@);
                        }
                    } else {
                        proof {
                            assert(!reachable(a, s, t));
                        }
                    }
                }
                proof {
                    lemma_credit_step(a, s, t, c0, counts@);
                }
                t = t + 1;
                proof {
                    assert forall|k: int| 0 <= k < n implies #[trigger] counts@[k] <= s * n + t by {}
                }
            }
            proof {
                assert forall|k: int| 0 <= k < n implies #[trigger] counts@[k] <= (s + 1) * n by {
                    assert(s * n + n == (s + 1) * n) by (nonlinear_arith);
                }
            }
            s = s + 1;
        }
        self.collect_credited(&counts)
    }

    /// The nodes whose count is positive, each once, with their counts.
    fn collect_credited(&self, counts: &Vec<u128>) -> (r: Vec<(String, u128)>)
        requires
            self.wf(),
            counts@.len() == self.names().len(),
            forall|k: usize|
                k < self.names().len() ==> credit_ok(
                    self.links(),
                    k,
                    self.names().len() as usize,
                    0,
                    #[trigger] counts@[k as int] as int,
                ),
            count_sum(counts@) == pair_total(self.links(), self.names().len()),
        ensures
            forall|k: int|
                #![trigger r@[k]]
                0 <= k < r@.len() ==> exists|id: usize|
                    id < self.names().len() && #[trigger] self.names()[id as int] == r@[k].0@
                        && self.betweenness_entry(id, r@[k].1),
            forall|id: usize|
                id < self.names().len() && pair_credit(
                    self.links(),
                    id,
                    self.names().len(),
                    Credit::Traced,
                ) > 0 ==> exists|k: int|
                    0 <= k < r@.len() && (#[trigger] r@[k]).0@ == self.names()[id as int],
            forall|k: int, l: int| 0 <= k < l < r@.len() ==> r@[k].0@ != r@[l].0@,
            count_sum(r@.map_values(|e: (String, u128)| e.1)) == pair_total(
                self.links(),
                self.names().len(),
            ),
    {
        let ghost a = self.links();
        let n = self.labels.len();
        let mut r: Vec<(String, u128)> = Vec::new();
        let ghost mut picked: Seq<usize> = Seq::empty();
        let mut i: usize = 0;
        while i < n
            invariant
                self.wf(),
                a == self.links(),
                n == self.names().len(),
                counts@.len() == n,
                forall|k: usize| k < n ==> credit_ok(a, k, n, 0, #[trigger] counts@[k as int] as int),
                i <= n,
                picked.len() == r@.len(),
                forall|k: int|
                    0 <= k < r@.len() ==> {
                        &&& #[trigger] picked[k] < i
                        &&& r@[k].0@ == self.names()[picked[k] as int]
                        &&& r@[k].1 == counts@[picked[k] as int]
                        &&& r@[k].1 > 0
                    },
                forall|k: int, l: int| 0 <= k < l < r@.len() ==> picked[k] < picked[l],
                forall|id: usize|
                    id < i && counts@[id as int] > 0 ==> exists|k: int|
                        0 <= k < picked.len() && #[trigger] picked[k] == id,
                count_sum(r@.map_values(|e: (String, u128)| e.1)) == count_sum(
                    counts@.subrange(0, i as int),
                ),
            decreases n - i,
        {
            let ghost before = r@;
            proof {
                assert(counts@.subrange(0, i + 1).drop_last() =~= counts@.subrange(0, i as int));
            }
            let ghost old_picked = picked;
            if counts[i] > 0 {
                r.push((self.labels[i].clone(), counts[i]));
                proof {
                    assert(r@.map_values(|e: (String, u128)| e.1).drop_last() =~= before.map_values(
                        |e: (String, u128)| e.1,
                    ));
                    picked = picked.push(i);
                    assert(picked[picked.len() - 1] == i);
                }
            }
            proof {
                assert forall|k: int| 0 <= k < r@.len() implies {
                    &&& #[trigger] picked[k] < i + 1
                    &&& r@[k].0@ == self.names()[picked[k] as int]
                    &&& r@[k].1 == counts@[picked[k] as int]
                    &&& r@[k].1 > 0
                } by {
                    if k < before.len() {
                        assert(r@[k] == before[k]);
                        assert(picked[k] == old_picked[k]);
                    } else {
                        assert(picked[k] == i);
                        assert(self.names()[i as int] == self.labels@[i as int]@);
                    }
                }
                assert forall|id: usize| id < i + 1 && counts@[id as int] > 0 implies exists|k: int|
                    0 <= k < picked.len() && #[trigger] picked[k] == id by {
                    if id < i {
                        let k = choose|k: int| 0 <= k < old_picked.len() && #[trigger] old_picked[k] == id;
                        assert(picked[k] == id);
                    } else {
                        assert(picked[picked.len() - 1] == id);
                    }
                }
            }
            i = i + 1;
        }
        proof {
            assert(counts@.subrange(0, n as int) =~= counts@);
            assert forall|k: int| #![trigger r@[k]] 0 <= k < r@.len() implies exists|id: usize|
                id < self.names().len() && #[trigger] self.names()[id as int] == r@[k].0@
                    && self.betweenness_entry(id, r@[k].1) by {
                let id = picked[k];
                assert(id < n);
                assert(credit_ok(a, id, n, 0, counts@[id as int] as int));
                assert(self.names()[id as int] == r@[k].0@);
            }
            assert forall|id: usize|
                id < self.names().len() && pair_credit(
                    self.links(),
                    id,
                    self.names().len(),
                    Credit::Traced,
                ) > 0 implies exists|k: int|
                0 <= k < r@.len() && (#[trigger] r@[k]).0@ == self.names()[id as int] by {
                assert(credit_ok(a, id, n, 0, counts@[id as int] as int));
                let k = choose|k: int| 0 <= k < picked.len() && #[trigger] picked[k] == id;
                assert(r@[k].0@ == self.names()[id as int]);
            }
            assert forall|k: int, l: int| 0 <= k < l < r@.len() implies r@[k].0@ != r@[l].0@ by {
                assert(picked[k] < picked[l]);
                assert(picked[l] < n);
            }
        }
        r
    }
}

/// From a walk with `d` edges, a least number of edges exists.
proof fn lemma_least_exists(a: Seq<Seq<usize>>, s: usize, t: usize, d: nat)
    requires
        within(a, s, t, d),
    ensures
        is_distance(a, s, t, distance(a, s, t)),
        distance(a, s, t) <= d,
    decreases d,
{
    if is_distance(a, s, t, d) {
        lemma_distance_unique(a, s, t, d);
    } else {
        let e = choose|e: nat| #[trigger] within(a, s, t, e) && e < d;
        lemma_least_exists(a, s, t, e);
    }
}

/// Symmetry: after the edge `(u, v)` is added, `v` is a neighbour of `u` and `u` of `v`,
/// and each label still occurs in the neighbours of another as often as the other occurs
/// in its own.
pub proof fn lemma_edge_symmetry(g0: Graph, g1: Graph, u: Seq<char>, v: Seq<char>)
    requires
        g1.edge_added(g0, u, v),
        g0.symmetric(),
    ensures
        g1.neighbors(u).contains(v),
        g1.neighbors(v).contains(u),
        g1.symmetric(),
{
    g1.lemma_symmetry_kept(g0, u, v);
    if u == v {
        assert(g1.neighbors(u).last() == u);
    } else {
        assert(g1.neighbors(u).last() == v);
        assert(g1.neighbors(v).last() == u);
    }
}

/// Degree accounting: adding an edge lengthens the neighbour list of each endpoint by one,
/// and that of a self-loop's node by two, whether or not the edge was there before.
pub proof fn lemma_degree_growth(g0: Graph, g1: Graph, u: Seq<char>, v: Seq<char>)
    requires
        g1.edge_added(g0, u, v),
    ensures
        u != v ==> g1.neighbors(u).len() == g0.neighbors(u).len() + 1,
        u != v ==> g1.neighbors(v).len() == g0.neighbors(v).len() + 1,
        u == v ==> g1.neighbors(u).len() == g0.neighbors(u).len() + 2,
{
}

/// Every node is zero hops from itself.
pub proof fn lemma_hops_self(g: Graph, x: Seq<char>)
    requires
        g.wf(),
        g.has_node(x),
    ensures
        g.connected(x, x),
        g.hops(x, x) == 0,
{
    g.lemma_id_of(x);
    crate::bfs::lemma_distance_self(g.links(), g.id_of(x) as usize);
    lemma_distance_unique(g.links(), g.id_of(x) as usize, g.id_of(x) as usize, 0);
}

/// The hop distance is the least number of edges on a walk: a sequence of labels, each a
/// neighbour of the one before, joins its first and last labels, and has at least
/// `hops(first, last)` edges.
pub proof fn lemma_hops_minimal(g: Graph, p: Seq<Seq<char>>)
    requires
        g.wf(),
        p.len() > 0,
        forall|k: int| 0 <= k < p.len() ==> g.has_node(#[trigger] p[k]),
        forall|k: int| 0 <= k < p.len() - 1 ==> #[trigger] g.neighbors(p[k]).contains(p[k + 1]),
    ensures
        g.connected(p[0], p.last()),
        g.hops(p[0], p.last()) <= p.len() - 1,
{
    let a = g.links();
    let ids = Seq::new(p.len(), |k: int| g.id_of(p[k]) as usize);
    assert forall|k: int| 0 <= k < ids.len() implies #[trigger] ids[k] < a.len() && g.names()[ids[k] as int] == p[k] by {
        g.lemma_id_of(p[k]);
    }
    assert forall|k: int| 0 <= k < ids.len() - 1 implies #[trigger] crate::bfs::edge_at(a, ids, k) by {
        let x = p[k];
        g.lemma_id_of(x);
        g.lemma_id_of(p[k + 1]);
        assert(ids[k] < a.len() && g.names()[ids[k] as int] == p[k]);
        assert(ids[k + 1] < a.len() && g.names()[ids[k + 1] as int] == p[k + 1]);
        let nb = g.neighbors(x);
        assert(nb.contains(p[k + 1]));
        let m = choose|m: int| 0 <= m < nb.len() && nb[m] == p[k + 1];
        let j = a[ids[k] as int][m];
        assert(j < a.len());
        assert(g.names()[j as int] == p[k + 1]);
        assert(j == ids[k + 1]);
        assert(a[ids[k] as int].contains(ids[k + 1]));
    }
    assert(walk_between(a, ids, ids[0], ids.last()));
    let d = (p.len() - 1) as nat;
    assert(within(a, ids[0], ids.last(), d));
    lemma_least_exists(a, ids[0], ids.last(), d);
    assert(reachable(a, ids[0], ids.last(), ));
}

/// A path and a distance agree: where the shortest-path query finds a path of `k + 1`
/// labels, the hop-distance query between the same labels answers `k`.
pub proof fn lemma_path_matches_distance(
    g: Graph,
    start: Seq<char>,
    end: Seq<char>,
    paths: Seq<Seq<Seq<char>>>,
    r: Result<usize, QueryError>,
)
    requires
        g.path_answer(start, end, paths),
        g.distance_answer(start, end, r),
        paths.len() == 1,
    ensures
        r == Ok::<usize, QueryError>((paths[0].len() - 1) as usize),
{
}

/// The hop distance from `start` to `end`, or `None` where either label names no node or
/// no walk joins them.
pub fn degrees_of_separation(graph: &Graph, start: &str, end: &str) -> (r: Option<usize>)
    requires
        graph.wf(),
    ensures
        r is Some <==> graph.has_node(start@) && graph.has_node(end@) && graph.connected(
            start@,
            end@,
        ),
        r matches Some(d) ==> d == graph.hops(start@, end@),
{
    match graph.hop_distance(start, end) {
        Ok(d) => Some(d),
        Err(_) => None,
    }
}

} // verus!
