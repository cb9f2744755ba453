use std::collections::HashMap;
use crate::density::Density;
use vstd::prelude::*;

verus! {

broadcast use vstd::std_specs::hash::group_hash_axioms;

/// Total number of entries over all adjacency lists.
pub open spec fn edge_total(adj: Seq<Seq<usize>>) -> nat
    decreases adj.len(),
{
    if adj.len() == 0 {
        0
    } else {
        edge_total(adj.drop_last()) + adj.last().len()
    }
}

/// Position of `w` in `members` (unique when `members` has no duplicates).
pub open spec fn local_index(members: Seq<usize>, w: usize) -> int {
    choose|k: int| 0 <= k < members.len() && members[k] == w
}

/// The targets in `adj` that lie in `members`, in order, each renamed to its
/// position in `members`; the others are dropped.
pub open spec fn restrict(adj: Seq<usize>, members: Seq<usize>) -> Seq<usize>
    decreases adj.len(),
{
    if adj.len() == 0 {
        seq![]
    } else {
        let rest = restrict(adj.drop_last(), members);
        if members.contains(adj.last()) {
            rest.push(local_index(members, adj.last()) as usize)
        } else {
            rest
        }
    }
}

/// Adjacency of the subgraph induced by `members`: local vertex `i` stands for
/// `members[i]`.
pub open spec fn induced_adjacency(adj: Seq<Seq<usize>>, members: Seq<usize>) -> Seq<Seq<usize>> {
    Seq::new(members.len(), |i: int| restrict(adj[members[i] as int], members))
}

/// The lists of `adj` picked out by `members`, in order.
pub open spec fn picked(adj: Seq<Seq<usize>>, members: Seq<usize>) -> Seq<Seq<usize>> {
    Seq::new(members.len(), |i: int| adj[members[i] as int])
}

/// Edges of `adj` whose source is not in `skip`.
pub open spec fn edges_outside(adj: Seq<Seq<usize>>, skip: Set<usize>) -> nat
    decreases adj.len(),
{
    if adj.len() == 0 {
        0
    } else {
        edges_outside(adj.drop_last(), skip) + if skip.contains((adj.len() - 1) as usize) {
            0
        } else {
            adj.last().len()
        }
    }
}

/// All members are vertices of an `n`-vertex graph, each listed once.
pub open spec fn valid_members(members: Seq<usize>, n: nat) -> bool {
    &&& members.no_duplicates()
    &&& forall|i: int| 0 <= i < members.len() ==> #[trigger] members[i] < n
}

proof fn lemma_restrict_bounds(adj: Seq<usize>, members: Seq<usize>)
    requires
        members.no_duplicates(),
    ensures
        restrict(adj, members).len() <= adj.len(),
        forall|j: int|
            0 <= j < restrict(adj, members).len() ==> #[trigger] restrict(adj, members)[j]
                < members.len(),
    decreases adj.len(),
{
    if adj.len() > 0 {
        lemma_restrict_bounds(adj.drop_last(), members);
        if members.contains(adj.last()) {
            let k = local_index(members, adj.last());
            assert(0 <= k < members.len() && members[k] == adj.last());
        }
    }
}

proof fn lemma_total_pointwise(a: Seq<Seq<usize>>, b: Seq<Seq<usize>>)
    requires
        a.len() == b.len(),
        forall|i: int| 0 <= i < a.len() ==> #[trigger] a[i].len() <= b[i].len(),
    ensures
        edge_total(a) <= edge_total(b),
    decreases a.len(),
{
    if a.len() > 0 {
        lemma_total_pointwise(a.drop_last(), b.drop_last());
    }
}

proof fn lemma_edges_outside_insert(adj: Seq<Seq<usize>>, skip: Set<usize>, y: usize)
    requires
        !skip.contains(y),
        adj.len() <= usize::MAX,
    ensures
        edges_outside(adj, skip) == edges_outside(adj, skip.insert(y)) + if y < adj.len() {
            adj[y as int].len()
        } else {
            0
        },
    decreases adj.len(),
{
    if adj.len() > 0 {
        let last = (adj.len() - 1) as usize;
        lemma_edges_outside_insert(adj.drop_last(), skip, y);
        assert(skip.insert(y).contains(last) <==> skip.contains(last) || last == y);
        if y < last {
            assert(adj.drop_last()[y as int] == adj[y as int]);
        }
    }
}

proof fn lemma_edges_outside_empty(adj: Seq<Seq<usize>>)
    ensures
        edges_outside(adj, Set::empty()) == edge_total(adj),
    decreases adj.len(),
{
    if adj.len() > 0 {
        lemma_edges_outside_empty(adj.drop_last());
    }
}

proof fn lemma_picked_split(adj: Seq<Seq<usize>>, members: Seq<usize>)
    requires
        valid_members(members, adj.len()),
        adj.len() <= usize::MAX,
    ensures
        edge_total(picked(adj, members)) + edges_outside(adj, Set::new(|x: usize| members.contains(x)))
            == edge_total(adj),
    decreases members.len(),
{
    if members.len() == 0 {
        assert(Set::new(|x: usize| members.contains(x)) =~= Set::empty());
        lemma_edges_outside_empty(adj);
    } else {
        let front = members.drop_last();
        let y = members.last();
        assert(valid_members(front, adj.len())) by {
            assert forall|i: int, j: int|
                0 <= i < front.len() && 0 <= j < front.len() && i != j implies front[i]
                != front[j] by {
                assert(members[i] != members[j]);
            }
            assert forall|i: int| 0 <= i < front.len() implies #[trigger] front[i] < adj.len() by {
                assert(members[i] < adj.len());
            }
        }
        lemma_picked_split(adj, front);
        let s0 = Set::new(|x: usize| front.contains(x));
        assert(!s0.contains(y)) by {
            if front.contains(y) {
                let i = choose|i: int| 0 <= i < front.len() && front[i] == y;
                assert(members[i] == members[members.len() - 1]);
            }
        }
        assert(s0.insert(y) =~= Set::new(|x: usize| members.contains(x))) by {
            assert forall|x: usize| members.contains(x) implies s0.insert(y).contains(x) by {
                let i = choose|i: int| 0 <= i < members.len() && members[i] == x;
                if i < members.len() - 1 {
                    assert(front[i] == x);
                }
            }
            assert forall|x: usize| s0.insert(y).contains(x) implies members.contains(x) by {
                if x == y {
                    assert(members[members.len() - 1] == x);
                } else {
                    let i = choose|i: int| 0 <= i < front.len() && front[i] == x;
                    assert(members[i] == x);
                }
            }
        }
        lemma_edges_outside_insert(adj, s0, y);
        assert(picked(adj, members).drop_last() =~= picked(adj, front));
        assert(members[members.len() - 1] < adj.len());
    }
}

/// The subgraph induced by distinct vertices has no more edges than the graph.
proof fn lemma_induced_total(adj: Seq<Seq<usize>>, members: Seq<usize>)
    requires
        valid_members(members, adj.len()),
        adj.len() <= usize::MAX,
    ensures
        edge_total(induced_adjacency(adj, members)) <= edge_total(adj),
{
    assert forall|i: int| 0 <= i < members.len() implies #[trigger] induced_adjacency(
        adj,
        members,
    )[i].len() <= picked(adj, members)[i].len() by {
        lemma_restrict_bounds(adj[members[i] as int], members);
    }
    lemma_total_pointwise(induced_adjacency(adj, members), picked(adj, members));
    lemma_picked_split(adj, members);
}

/// Number of non-empty lists in `adj`: the vertices with an outgoing edge.
pub open spec fn nonzero_count(adj: Seq<Seq<usize>>) -> nat
    decreases adj.len(),
{
    if adj.len() == 0 {
        0
    } else {
        nonzero_count(adj.drop_last()) + if adj.last().len() > 0 {
            1nat
        } else {
            0nat
        }
    }
}

proof fn lemma_prefix_totals(adj: Seq<Seq<usize>>, i: int)
    requires
        0 <= i <= adj.len(),
    ensures
        edge_total(adj.take(i)) <= edge_total(adj),
        nonzero_count(adj.take(i)) <= i,
    decreases adj.len(),
{
    if i < adj.len() {
        assert(adj.drop_last().take(i) =~= adj.take(i));
        lemma_prefix_totals(adj.drop_last(), i);
    } else {
        assert(adj.take(i) =~= adj);
        if adj.len() > 0 {
            lemma_prefix_totals(adj.drop_last(), i - 1);
            assert(adj.drop_last().take(i - 1) =~= adj.drop_last());
        }
    }
}

/// Targets of the edges of `edges` that leave `u`, in order.
pub open spec fn targets_from(edges: Seq<(usize, usize)>, u: usize) -> Seq<usize>
    decreases edges.len(),
{
    if edges.len() == 0 {
        seq![]
    } else {
        let rest = targets_from(edges.drop_last(), u);
        if edges.last().0 == u {
            rest.push(edges.last().1)
        } else {
            rest
        }
    }
}

/// The list is in ascending order.
pub open spec fn ascending(l: Seq<usize>) -> bool {
    forall|i: int, j: int| 0 <= i < j < l.len() ==> #[trigger] l[i] <= #[trigger] l[j]
}

/// External identifiers in order of first appearance, the citing one of each
/// edge before the cited one.
pub open spec fn first_seen(edges: Seq<(usize, usize)>) -> Seq<usize>
    decreases edges.len(),
{
    if edges.len() == 0 {
        seq![]
    } else {
        let seen = first_seen(edges.drop_last());
        let (a, b) = edges.last();
        let seen = if seen.contains(a) {
            seen
        } else {
            seen.push(a)
        };
        if seen.contains(b) {
            seen
        } else {
            seen.push(b)
        }
    }
}

/// Each edge with its endpoints renamed to their positions in `ids`.
pub open spec fn renamed(edges: Seq<(usize, usize)>, ids: Seq<usize>) -> Seq<(usize, usize)> {
    edges.map_values(|e: (usize, usize)| (local_index(ids, e.0) as usize, local_index(ids, e.1) as usize))
}

proof fn lemma_total_push(adj: Seq<Seq<usize>>, a: int, b: usize)
    requires
        0 <= a < adj.len(),
    ensures
        edge_total(adj.update(a, adj[a].push(b))) == edge_total(adj) + 1,
    decreases adj.len(),
{
    let adj2 = adj.update(a, adj[a].push(b));
    if a < adj.len() - 1 {
        assert(adj2.drop_last() =~= adj.drop_last().update(a, adj[a].push(b)));
        lemma_total_push(adj.drop_last(), a, b);
    } else {
        assert(adj2.drop_last() =~= adj.drop_last());
    }
}

proof fn lemma_total_same_lengths(a: Seq<Seq<usize>>, b: Seq<Seq<usize>>)
    requires
        a.len() == b.len(),
        forall|i: int| 0 <= i < a.len() ==> #[trigger] a[i].len() == b[i].len(),
    ensures
        edge_total(a) == edge_total(b),
{
    lemma_total_pointwise(a, b);
    lemma_total_pointwise(b, a);
}

proof fn lemma_total_empty(adj: Seq<Seq<usize>>)
    requires
        forall|i: int| 0 <= i < adj.len() ==> #[trigger] adj[i].len() == 0,
    ensures
        edge_total(adj) == 0,
    decreases adj.len(),
{
    if adj.len() > 0 {
        lemma_total_empty(adj.drop_last());
    }
}

proof fn lemma_targets_from_bound(edges: Seq<(usize, usize)>, u: usize, n: nat)
    requires
        forall|k: int| 0 <= k < edges.len() ==> (#[trigger] edges[k]).1 < n,
    ensures
        forall|j: int| 0 <= j < targets_from(edges, u).len() ==> #[trigger] targets_from(edges, u)[j] < n,
    decreases edges.len(),
{
    if edges.len() > 0 {
        let front = edges.drop_last();
        assert forall|k: int| 0 <= k < front.len() implies (#[trigger] front[k]).1 < n by {
            assert(front[k] == edges[k]);
        }
        lemma_targets_from_bound(front, u, n);
        assert(edges.last() == edges[edges.len() - 1]);
        let rest = targets_from(front, u);
        let t = targets_from(edges, u);
        assert forall|j: int| 0 <= j < t.len() implies #[trigger] t[j] < n by {
            if j < rest.len() {
                assert(t[j] == rest[j]);
            }
        }
    }
}

/// The list with every occurrence of `v` taken out, order kept.
pub open spec fn without(l: Seq<usize>, v: usize) -> Seq<usize>
    decreases l.len(),
{
    if l.len() == 0 {
        seq![]
    } else {
        let rest = without(l.drop_last(), v);
        if l.last() == v {
            rest
        } else {
            rest.push(l.last())
        }
    }
}

proof fn lemma_without_bounds(l: Seq<usize>, v: usize, n: nat)
    requires
        forall|j: int| 0 <= j < l.len() ==> #[trigger] l[j] < n,
    ensures
        without(l, v).len() <= l.len(),
        forall|j: int| 0 <= j < without(l, v).len() ==> #[trigger] without(l, v)[j] < n,
    decreases l.len(),
{
    if l.len() > 0 {
        let front = l.drop_last();
        assert forall|j: int| 0 <= j < front.len() implies #[trigger] front[j] < n by {
            assert(front[j] == l[j]);
        }
        lemma_without_bounds(front, v, n);
        assert(l.last() == l[l.len() - 1]);
        let rest = without(front, v);
        let w = without(l, v);
        assert forall|j: int| 0 <= j < w.len() implies #[trigger] w[j] < n by {
            if j < rest.len() {
                assert(w[j] == rest[j]);
            }
        }
    }
}

/// The error of an operation on a vertex that the graph does not have.
#[derive(Clone, Copy, Debug, PartialEq, Eq, Structural)]
pub enum GraphError {
    VertexOutOfRange,
}

/// A directed graph over the vertices `0..n`, with the external identifier of
/// each vertex.
#[derive(Clone, Debug)]
pub struct Graph {
    pub n: usize,
    pub outedges: Vec<Vec<usize>>,
    pub id_to_node: Vec<usize>,
}

impl Graph {
    /// The adjacency lists as sequences.
    pub open spec fn adjacency(self) -> Seq<Seq<usize>> {
        self.outedges@.map_values(|l: Vec<usize>| l@)
    }

    /// Every list is indexed by a vertex, every edge ends at a vertex, and the
    /// edges can be counted in a `usize`.
    pub open spec fn wf(self) -> bool {
        &&& self.outedges.len() == self.n
        &&& self.id_to_node.len() == self.n
        &&& forall|u: int, j: int|
            0 <= u < self.n && 0 <= j < self.outedges@[u].len() ==> #[trigger] self.outedges@[u]@[j]
                < self.n
        &&& edge_total(self.adjacency()) <= usize::MAX
    }

    /// The out-degree of every vertex, in vertex order.
    pub fn calculate_out_degree(&self) -> (r: Vec<(usize, usize)>)
        ensures
            r.len() == self.outedges.len(),
            forall|v: int| 0 <= v < r.len() ==> #[trigger] r@[v] == (v as usize, self.outedges@[v].len()),
    {
        let mut r: Vec<(usize, usize)> = Vec::new();
        let mut v: usize = 0;
        while v < self.outedges.len()
            invariant
                v <= self.outedges.len(),
                r.len() == v,
                forall|w: int| 0 <= w < v ==> #[trigger] r@[w] == (w as usize, self.outedges@[w].len()),
            decreases self.outedges.len() - v,
        {
            r.push((v, self.outedges[v].len()));
            v += 1;
        }
        r
    }
    /// The subgraph induced by `members`: local vertex `i` is `members[i]`,
    /// its identifier is `members[i]`, and only edges between members remain.
    pub fn induced_subgraph(&self, members: &Vec<usize>) -> (r: Graph)
        requires
            self.wf(),
            valid_members(members@, self.n as nat),
        ensures
            r.wf(),
            r.n == members.len(),
            r.id_to_node@ == members@,
            r.adjacency() == induced_adjacency(self.adjacency(), members@),
    {
        let ghost adj = self.adjacency();
        let mut node_map: HashMap<usize, usize> = HashMap::new();
        let mut i: usize = 0;
        while i < members.len()
            invariant
                i <= members.len(),
                valid_members(members@, self.n as nat),
                forall|x: usize| #[trigger]
                    node_map@.contains_key(x) <==> members@.take(i as int).contains(x),
                forall|k: int| 0 <= k < i ==> #[trigger] node_map@[members@[k]] == k,
            decreases members.len() - i,
        {
            let ghost pre = members@.take(i as int);
            assert(members@.take(i as int + 1) =~= pre.push(members@[i as int]));
            assert forall|x: usize| pre.push(members@[i as int]).contains(x) <==> (pre.contains(x)
                || x == members@[i as int]) by {
                if pre.contains(x) {
                    let k = choose|k: int| 0 <= k < pre.len() && pre[k] == x;
                    assert(pre.push(members@[i as int])[k] == x);
                }
                if x == members@[i as int] {
                    assert(pre.push(members@[i as int])[i as int] == x);
                }
                if pre.push(members@[i as int]).contains(x) && x != members@[i as int] {
                    let k = choose|k: int| 0 <= k < i + 1 && pre.push(members@[i as int])[k] == x;
                    assert(pre[k] == x);
                }
            }
            assert(forall|k: int| 0 <= k < i ==> members@[k] != members@[i as int]);
            node_map.insert(members[i], i);
            i += 1;
        }
        assert(members@.take(members.len() as int) =~= members@);
        let mut outedges: Vec<Vec<usize>> = Vec::new();
        let mut i: usize = 0;
        while i < members.len()
            invariant
                self.wf(),
                adj == self.adjacency(),
                i <= members.len(),
                valid_members(members@, self.n as nat),
                forall|x: usize| #[trigger] node_map@.contains_key(x) <==> members@.contains(x),
                forall|k: int| 0 <= k < members.len() ==> #[trigger] node_map@[members@[k]] == k,
                outedges.len() == i,
                forall|k: int|
                    0 <= k < i ==> #[trigger] outedges@[k]@ == induced_adjacency(adj, members@)[k],
            decreases members.len() - i,
        {
            let v = members[i];
            let src = &self.outedges[v];
            assert(src@ == adj[v as int]);
            let mut list: Vec<usize> = Vec::new();
            let mut j: usize = 0;
            while j < src.len()
                invariant
                    j <= src.len(),
                    members@.no_duplicates(),
                    forall|x: usize| #[trigger] node_map@.contains_key(x) <==> members@.contains(x),
                    forall|k: int|
                        0 <= k < members.len() ==> #[trigger] node_map@[members@[k]] == k,
                    list@ == restrict(src@.take(j as int), members@),
                decreases src.len() - j,
            {
                let w = src[j];
                assert(src@.take(j as int + 1).drop_last() =~= src@.take(j as int));
                match node_map.get(&w) {
                    Some(k) => {
                        let ghost i0 = choose|i0: int| 0 <= i0 < members.len() && members@[i0] == w;
                        assert(node_map@[members@[i0]] == i0);
                        assert(local_index(members@, w) == i0);
                        list.push(*k);
                    },
                    None => {},
                }
                j += 1;
            }
            assert(src@.take(src.len() as int) =~= src@);
            outedges.push(list);
            i += 1;
        }
        let r = Graph { n: members.len(), outedges, id_to_node: members.clone() };
        assert(r.adjacency() =~= induced_adjacency(adj, members@));
        proof {
            lemma_induced_total(adj, members@);
            assert forall|u: int, j: int|
                0 <= u < r.n && 0 <= j < r.outedges@[u].len() implies #[trigger] r.outedges@[u]@[j]
                < r.n by {
                lemma_restrict_bounds(adj[members@[u] as int], members@);
            }
        }
        r
    }
    /// Edges per vertex, over all vertices.
    pub open spec fn spec_density(self) -> Density {
        Density { edges: edge_total(self.adjacency()) as usize, vertices: self.n }
    }

    /// Edges per vertex with an outgoing edge.
    pub open spec fn spec_out_density(self) -> Density {
        Density {
            edges: edge_total(self.adjacency()) as usize,
            vertices: nonzero_count(self.adjacency()) as usize,
        }
    }

    /// Counts the edges and the vertices that have an outgoing edge.
    fn count_edges(&self) -> (r: (usize, usize))
        requires
            self.wf(),
        ensures
            r.0 == edge_total(self.adjacency()),
            r.1 == nonzero_count(self.adjacency()),
    {
        let ghost adj = self.adjacency();
        let mut edges: usize = 0;
        let mut active: usize = 0;
        let mut v: usize = 0;
        while v < self.outedges.len()
            invariant
                self.wf(),
                adj == self.adjacency(),
                v <= self.outedges.len(),
                edges == edge_total(adj.take(v as int)),
                active == nonzero_count(adj.take(v as int)),
            decreases self.outedges.len() - v,
        {
            proof {
                assert(adj.take(v as int + 1).drop_last() =~= adj.take(v as int));
                lemma_prefix_totals(adj, v as int + 1);
            }
            let d = self.outedges[v].len();
            edges = edges + d;
            if d > 0 {
                active = active + 1;
            }
            v += 1;
        }
        assert(adj.take(v as int) =~= adj);
        (edges, active)
    }

    /// Density over all vertices: total edges divided by the vertex count
    /// (zero for a graph without vertices).
    pub fn calculate_density(&self) -> (r: Density)
        requires
            self.wf(),
        ensures
            r == self.spec_density(),
    {
        let (edges, _) = self.count_edges();
        Density { edges, vertices: self.n }
    }

    /// Density over the vertices with an outgoing edge: total edges divided by
    /// their number (zero where there is none).
    pub fn calculate_out_density(&self) -> (r: Density)
        requires
            self.wf(),
        ensures
            r == self.spec_out_density(),
    {
        let (edges, active) = self.count_edges();
        Density { edges, vertices: active }
    }
    /// Appends the target of each edge, in order, to the list of its source.
    pub fn add_directed_edges(&mut self, edges: &Vec<(usize, usize)>)
        requires
            forall|k: int| 0 <= k < edges.len() ==> (#[trigger] edges@[k]).0 < old(self).outedges.len(),
        ensures
            final(self).n == old(self).n,
            final(self).id_to_node == old(self).id_to_node,
            final(self).outedges.len() == old(self).outedges.len(),
            forall|u: int|
                0 <= u < final(self).outedges.len() ==> #[trigger] final(self).outedges@[u]@
                    == old(self).outedges@[u]@ + targets_from(edges@, u as usize),
            edge_total(final(self).adjacency()) == edge_total(old(self).adjacency()) + edges.len(),
    {
        let ghost start = self.outedges@;
        let mut k: usize = 0;
        while k < edges.len()
            invariant
                k <= edges.len(),
                self.outedges.len() == start.len(),
                self.n == old(self).n,
                self.id_to_node == old(self).id_to_node,
                start == old(self).outedges@,
                forall|i: int| 0 <= i < edges.len() ==> (#[trigger] edges@[i]).0 < start.len(),
                forall|u: int|
                    0 <= u < start.len() ==> #[trigger] self.outedges@[u]@ == start[u]@ + targets_from(
                        edges@.take(k as int),
                        u as usize,
                    ),
                edge_total(self.adjacency()) == edge_total(old(self).adjacency()) + k,
            decreases edges.len() - k,
        {
            let (u, v) = edges[k];
            let ghost before = self.adjacency();
            self.outedges[u].push(v);
            proof {
                assert(edges@.take(k + 1).drop_last() =~= edges@.take(k as int));
                assert(self.adjacency() =~= before.update(u as int, before[u as int].push(v)));
                lemma_total_push(before, u as int, v);
                assert forall|w: int| 0 <= w < start.len() implies #[trigger] self.outedges@[w]@
                    == start[w]@ + targets_from(edges@.take(k + 1), w as usize) by {
                    if w == u {
                        assert(start[w]@ + targets_from(edges@.take(k + 1), w as usize) =~= (start[w]@
                            + targets_from(edges@.take(k as int), w as usize)).push(v));
                    }
                }
            }
            k += 1;
        }
        assert(edges@.take(k as int) =~= edges@);
    }

    /// Sorts every adjacency list into ascending order.
    pub fn sort_graph_lists(&mut self)
        ensures
            final(self).n == old(self).n,
            final(self).id_to_node == old(self).id_to_node,
            final(self).outedges.len() == old(self).outedges.len(),
            forall|u: int|
                0 <= u < final(self).outedges.len() ==> ascending(
                    #[trigger] final(self).outedges@[u]@,
                ) && final(self).outedges@[u]@.to_multiset() == old(self).outedges@[u]@.to_multiset(),
            old(self).wf() ==> final(self).wf(),
    {
        let mut u: usize = 0;
        while u < self.outedges.len()
            invariant
                u <= self.outedges.len(),
                self.n == old(self).n,
                self.id_to_node == old(self).id_to_node,
                self.outedges.len() == old(self).outedges.len(),
                forall|w: int|
                    0 <= w < self.outedges.len() ==> (#[trigger] self.outedges@[w]@).to_multiset()
                        == old(self).outedges@[w]@.to_multiset(),
                forall|w: int| 0 <= w < u ==> ascending(#[trigger] self.outedges@[w]@),
                forall|w: int| u <= w < self.outedges.len() ==> #[trigger] self.outedges@[w] == old(
                    self,
                ).outedges@[w],
            decreases self.outedges.len() - u,
        {
            sort_vertices(&mut self.outedges[u]);
            u += 1;
        }
        proof {
            broadcast use vstd::seq_lib::group_to_multiset_ensures;

            let a = self.adjacency();
            let b = old(self).adjacency();
            assert forall|i: int| 0 <= i < a.len() implies #[trigger] a[i].len() == b[i].len() by {
                assert(a[i].to_multiset().len() == b[i].to_multiset().len());
            }
            lemma_total_same_lengths(a, b);
            if old(self).wf() {
                assert forall|x: int, j: int|
                    0 <= x < self.n && 0 <= j < self.outedges@[x].len() implies #[trigger] self.outedges@[x]@[j]
                    < self.n by {
                    let y = self.outedges@[x]@[j];
                    assert(a[x].contains(y));
                    assert(a[x].to_multiset().count(y) > 0);
                    assert(b[x].contains(y));
                }
            }
        }
    }

    /// Assigns the next index to an external identifier seen for the first
    /// time, recording the identifier; returns the identifier's index.
    pub fn map_node(
        node_map: &mut HashMap<usize, usize>,
        id_to_node: &mut Vec<usize>,
        node: usize,
        current_index: &mut usize,
    ) -> (r: usize)
        requires
            !old(node_map)@.contains_key(node) ==> *old(current_index) < usize::MAX,
        ensures
            old(node_map)@.contains_key(node) ==> {
                &&& r == old(node_map)@[node]
                &&& final(node_map)@ == old(node_map)@
                &&& final(id_to_node)@ == old(id_to_node)@
                &&& *final(current_index) == *old(current_index)
            },
            !old(node_map)@.contains_key(node) ==> {
                &&& r == *old(current_index)
                &&& final(node_map)@ == old(node_map)@.insert(node, r)
                &&& final(id_to_node)@ == old(id_to_node)@.push(node)
                &&& *final(current_index) == *old(current_index) + 1
            },
    {
        match node_map.get(&node) {
            Some(idx) => *idx,
            None => {
                id_to_node.push(node);
                let idx = *current_index;
                *current_index += 1;
                node_map.insert(node, idx);
                idx
            },
        }
    }
    /// Builds the graph of a list of edges between external identifiers.
    /// Identifiers get indices in order of first appearance, and every
    /// adjacency list is sorted.
    pub fn from_edge_list(edges: &Vec<(usize, usize)>) -> (r: Graph)
        requires
            edges.len() <= usize::MAX / 2,
        ensures
            r.wf(),
            r.id_to_node@ == first_seen(edges@),
            forall|u: int|
                0 <= u < r.n ==> ascending(#[trigger] r.outedges@[u]@) && r.outedges@[u]@.to_multiset()
                    == targets_from(renamed(edges@, first_seen(edges@)), u as usize).to_multiset(),
    {
        let mut node_map: HashMap<usize, usize> = HashMap::new();
        let mut ids: Vec<usize> = Vec::new();
        let mut mapped: Vec<(usize, usize)> = Vec::new();
        let mut current: usize = 0;
        let mut i: usize = 0;
        while i < edges.len()
            invariant
                edges.len() <= usize::MAX / 2,
                i <= edges.len(),
                ids@ == first_seen(edges@.take(i as int)),
                ids@.no_duplicates(),
                current == ids.len(),
                ids.len() <= 2 * i,
                forall|x: usize| #[trigger] node_map@.contains_key(x) <==> ids@.contains(x),
                forall|k: int| 0 <= k < ids.len() ==> #[trigger] node_map@[ids@[k]] == k,
                mapped.len() == i,
                forall|k: int|
                    0 <= k < i ==> {
                        let e = #[trigger] mapped@[k];
                        &&& e.0 < ids.len()
                        &&& e.1 < ids.len()
                        &&& ids@[e.0 as int] == edges@[k].0
                        &&& ids@[e.1 as int] == edges@[k].1
                    },
            decreases edges.len() - i,
        {
            let (a, b) = edges[i];
            let ghost ids0 = ids@;
            assert(edges@.take(i + 1).drop_last() =~= edges@.take(i as int));
            let x = Self::map_node(&mut node_map, &mut ids, a, &mut current);
            proof {
                if !ids0.contains(a) {
                    assert(ids@.no_duplicates());
                    assert forall|y: usize| #[trigger] node_map@.contains_key(y) <==> ids@.contains(y) by {
                        if ids@.contains(y) && y != a {
                            let k = choose|k: int| 0 <= k < ids.len() && ids@[k] == y;
                            assert(ids0[k] == y);
                        }
                        if ids0.contains(y) {
                            let k = choose|k: int| 0 <= k < ids0.len() && ids0[k] == y;
                            assert(ids@[k] == y);
                        }
                        if y == a {
                            assert(ids@[ids0.len() as int] == a);
                        }
                    }
                    assert forall|k: int| 0 <= k < ids.len() implies #[trigger] node_map@[ids@[k]] == k by {
                        if k < ids0.len() {
                            assert(ids0[k] != a);
                        }
                    }
                } else {
                    let k = choose|k: int| 0 <= k < ids0.len() && ids0[k] == a;
                    assert(node_map@[ids0[k]] == k);
                }
            }
            let ghost ids1 = ids@;
            let y = Self::map_node(&mut node_map, &mut ids, b, &mut current);
            proof {
                if !ids1.contains(b) {
                    assert forall|z: usize| #[trigger] node_map@.contains_key(z) <==> ids@.contains(z) by {
                        if ids@.contains(z) && z != b {
                            let k = choose|k: int| 0 <= k < ids.len() && ids@[k] == z;
                            assert(ids1[k] == z);
                        }
                        if ids1.contains(z) {
                            let k = choose|k: int| 0 <= k < ids1.len() && ids1[k] == z;
                            assert(ids@[k] == z);
                        }
                        if z == b {
                            assert(ids@[ids1.len() as int] == b);
                        }
                    }
                    assert forall|k: int| 0 <= k < ids.len() implies #[trigger] node_map@[ids@[k]] == k by {
                        if k < ids1.len() {
                            assert(ids1[k] != b);
                        }
                    }
                } else {
                    let k = choose|k: int| 0 <= k < ids1.len() && ids1[k] == b;
                    assert(node_map@[ids1[k]] == k);
                }
                assert(ids@[x as int] == a);
            }
            mapped.push((x, y));
            i += 1;
        }
        assert(edges@.take(i as int) =~= edges@);
        let n = ids.len();
        let mut outedges: Vec<Vec<usize>> = Vec::new();
        let mut v: usize = 0;
        while v < n
            invariant
                v <= n,
                outedges.len() == v,
                forall|w: int| 0 <= w < v ==> (#[trigger] outedges@[w])@.len() == 0,
            decreases n - v,
        {
            outedges.push(Vec::new());
            v += 1;
        }
        proof {
            lemma_total_empty(outedges@.map_values(|l: Vec<usize>| l@));
        }
        let mut graph = Graph { n, outedges, id_to_node: ids };
        graph.add_directed_edges(&mapped);
        proof {
            assert forall|u: int, j: int|
                0 <= u < graph.n && 0 <= j < graph.outedges@[u].len() implies #[trigger] graph.outedges@[u]@[j]
                < graph.n by {
                lemma_targets_from_bound(mapped@, u as usize, n as nat);
                assert(graph.outedges@[u]@ =~= targets_from(mapped@, u as usize));
                assert(graph.outedges@[u]@[j] == targets_from(mapped@, u as usize)[j]);
            }
            assert(mapped@ =~= renamed(edges@, ids@)) by {
                assert forall|k: int| 0 <= k < mapped.len() implies #[trigger] mapped@[k] == renamed(
                    edges@,
                    ids@,
                )[k] by {
                    let e = mapped@[k];
                    let la = local_index(ids@, edges@[k].0);
                    let lb = local_index(ids@, edges@[k].1);
                    assert(0 <= la < ids.len() && ids@[la] == edges@[k].0);
                    assert(0 <= lb < ids.len() && ids@[lb] == edges@[k].1);
                }
            }
        }
        let ghost unsorted = graph.outedges@;
        graph.sort_graph_lists();
        proof {
            assert forall|u: int| 0 <= u < graph.n implies ascending(#[trigger] graph.outedges@[u]@)
                && graph.outedges@[u]@.to_multiset() == targets_from(
                renamed(edges@, first_seen(edges@)),
                u as usize,
            ).to_multiset() by {
                assert(unsorted[u]@ =~= targets_from(mapped@, u as usize));
            }
        }
        graph
    }

    /// Isolates vertex `v`: clears its own list and takes it out of every
    /// other list. The vertex stays, so nothing is renumbered.
    pub fn remove_vertex(&mut self, v: usize) -> (r: Result<(), GraphError>)
        requires
            old(self).wf(),
        ensures
            final(self).wf(),
            r is Err <==> v >= old(self).n,
            r is Err ==> *final(self) == *old(self),
            final(self).n == old(self).n,
            final(self).id_to_node == old(self).id_to_node,
            r is Ok ==> forall|u: int|
                0 <= u < final(self).n ==> #[trigger] final(self).outedges@[u]@ == if u == v {
                    seq![]
                } else {
                    without(old(self).outedges@[u]@, v)
                },
    {
        if v >= self.n {
            return Err(GraphError::VertexOutOfRange);
        }
        let n = self.n;
        let mut u: usize = 0;
        while u < n
            invariant
                n == self.n,
                n == old(self).n,
                v < n,
                u <= n,
                self.id_to_node == old(self).id_to_node,
                self.outedges.len() == n,
                old(self).wf(),
                forall|w: int|
                    0 <= w < u ==> #[trigger] self.outedges@[w]@ == if w == v {
                        seq![]
                    } else {
                        without(old(self).outedges@[w]@, v)
                    },
                forall|w: int| u <= w < n ==> #[trigger] self.outedges@[w] == old(self).outedges@[w],
            decreases n - u,
        {
            let mut list: Vec<usize> = Vec::new();
            if u != v {
                let mut j: usize = 0;
                while j < self.outedges[u].len()
                    invariant
                        u < n,
                        self.outedges.len() == n,
                        j <= self.outedges@[u as int].len(),
                        list@ == without(self.outedges@[u as int]@.take(j as int), v),
                    decreases self.outedges@[u as int].len() - j,
                {
                    let x = self.outedges[u][j];
                    assert(self.outedges@[u as int]@.take(j + 1).drop_last() =~= self.outedges@[
                        u as int
                    ]@.take(j as int));
                    if x != v {
                        list.push(x);
                    }
                    j += 1;
                }
                assert(self.outedges@[u as int]@.take(j as int) =~= self.outedges@[u as int]@);
            }
            self.outedges.set(u, list);
            u += 1;
        }
        proof {
            let a = self.adjacency();
            let b = old(self).adjacency();
            assert forall|w: int| 0 <= w < n implies #[trigger] a[w].len() <= b[w].len() && forall|
                j: int,
            | 0 <= j < a[w].len() ==> #[trigger] a[w][j] < n by {
                assert forall|j: int| 0 <= j < b[w].len() implies #[trigger] b[w][j] < n by {
                    assert(old(self).outedges@[w]@[j] < n);
                }
                lemma_without_bounds(b[w], v, n as nat);
            }
            lemma_total_pointwise(a, b);
            assert forall|x: int, j: int|
                0 <= x < self.n && 0 <= j < self.outedges@[x].len() implies #[trigger] self.outedges@[x]@[j]
                < self.n by {
                assert(a[x][j] == self.outedges@[x]@[j]);
            }
        }
        Ok(())
    }
}

/// A graph without edges, or without vertices, has density zero under either
/// denominator, and no density is negative.
pub proof fn lemma_density_degenerate(g: Graph)
    requires
        g.wf(),
    ensures
        g.spec_density().num() >= 0,
        g.spec_out_density().num() >= 0,
        edge_total(g.adjacency()) == 0 ==> g.spec_density().num() == 0 && g.spec_out_density().num()
            == 0,
        g.n == 0 ==> g.spec_density().num() == 0 && g.spec_out_density().num() == 0,
{
    if g.n == 0 {
        assert(g.adjacency().len() == 0);
    }
}

/// Relies on `slice::sort` (std): the list is rearranged into ascending order.
#[verifier::external_body]
fn sort_vertices(v: &mut Vec<usize>)
    ensures
        final(v)@.to_multiset() == old(v)@.to_multiset(),
        ascending(final(v)@),
{
    v.sort();
}

} // verus!
