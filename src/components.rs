use crate::graph::Graph;
use vstd::prelude::*;
use vstd::set_lib::{lemma_int_range, lemma_len_subset, set_int_range};

verus! {

/// Every labelled vertex outside `pending` has all of its out-neighbours
/// labelled, none with a later label than its own.
pub open spec fn closed_except(g: Graph, labels: Seq<Option<usize>>, pending: Seq<usize>) -> bool {
    forall|u: int, j: int|
        0 <= u < labels.len() && labels[u] is Some && !pending.contains(u as usize) && 0 <= j
            < g.outedges@[u].len() ==> {
            let w = #[trigger] g.outedges@[u]@[j] as int;
            &&& labels[w] is Some
            &&& labels[w].unwrap() <= labels[u].unwrap()
        }
}

/// Labels are closed under out-edges: an edge never leads from a labelled
/// vertex to an unlabelled one, nor to a later component.
pub open spec fn closed(g: Graph, labels: Seq<Option<usize>>) -> bool {
    closed_except(g, labels, seq![])
}

/// Every label that is present lies in `1..=top`.
pub open spec fn labels_within(labels: Seq<Option<usize>>, top: usize) -> bool {
    forall|v: int| 0 <= v < labels.len() && #[trigger] labels[v] is Some ==> 1 <= labels[v].unwrap() <= top
}

/// `p` is a walk of `g`: a non-empty sequence of vertices, each one an
/// out-neighbour of the one before.
pub open spec fn is_walk(g: Graph, p: Seq<usize>) -> bool {
    &&& p.len() >= 1
    &&& forall|i: int| 0 <= i < p.len() ==> #[trigger] p[i] < g.n
    &&& forall|i: int|
        0 <= i < p.len() - 1 ==> g.outedges@[(#[trigger] p[i]) as int]@.contains(p[i + 1])
}

/// Some walk from `from` to `w` passes through unlabelled vertices only.
pub open spec fn reaches_unlabelled(
    g: Graph,
    labels: Seq<Option<usize>>,
    from: usize,
    w: usize,
) -> bool {
    exists|p: Seq<usize>|
        #![trigger is_walk(g, p)]
        is_walk(g, p) && p[0] == from && p.last() == w && forall|i: int|
            0 <= i < p.len() ==> labels[(#[trigger] p[i]) as int] is None
}

/// Every vertex that `labels` newly marks with `c` (unlabelled in `start`)
/// and that is not in `pending` has all of its out-neighbours labelled.
spec fn expanded_except(
    g: Graph,
    start: Seq<Option<usize>>,
    labels: Seq<Option<usize>>,
    c: usize,
    pending: Seq<usize>,
) -> bool {
    forall|u: int, j: int|
        0 <= u < labels.len() && start[u] is None && labels[u] == Some(c) && !pending.contains(
            u as usize,
        ) && 0 <= j < g.outedges@[u].len() ==> labels[(#[trigger] g.outedges@[u]@[j]) as int] is Some
}

/// Along a walk of vertices unlabelled in `start`, once its first vertex is
/// newly marked `c` and every newly marked vertex has its out-neighbours
/// labelled, each vertex of the walk is marked `c`.
proof fn lemma_walk_marked(
    g: Graph,
    start: Seq<Option<usize>>,
    labels: Seq<Option<usize>>,
    p: Seq<usize>,
    c: usize,
    k: int,
)
    requires
        g.wf(),
        labels.len() == g.n,
        is_walk(g, p),
        labels[p[0] as int] == Some(c),
        expanded_except(g, start, labels, c, seq![]),
        forall|i: int| 0 <= i < p.len() ==> start[(#[trigger] p[i]) as int] is None,
        forall|v: int|
            0 <= v < g.n && (#[trigger] start[v]) is None ==> labels[v] is None || labels[v] == Some(c),
        0 <= k < p.len(),
    ensures
        labels[p[k] as int] == Some(c),
    decreases k,
{
    if k > 0 {
        lemma_walk_marked(g, start, labels, p, c, k - 1);
        let u = p[k - 1];
        assert(start[p[k - 1] as int] is None);
        assert(g.outedges@[u as int]@.contains(p[k]));
        let j = choose|j: int| 0 <= j < g.outedges@[u as int].len() && g.outedges@[u as int]@[j] == p[k];
        assert(!seq![].contains(u));
        assert(labels[g.outedges@[u as int]@[j] as int] is Some);
        assert(start[p[k] as int] is None);
    }
}

/// Labels `vertex` and every unlabelled vertex that it reaches through
/// unlabelled vertices along out-edges with `component_no`, and nothing else.
/// Earlier labels are kept. The traversal keeps its own stack of vertices to
/// visit.
pub fn mark_component_dfs(
    vertex: usize,
    graph: &Graph,
    component: &mut Vec<Option<usize>>,
    component_no: usize,
)
    requires
        graph.wf(),
        old(component).len() == graph.n,
        vertex < graph.n,
        old(component)@[vertex as int] is None,
    ensures
        final(component).len() == graph.n,
        final(component)@[vertex as int] == Some(component_no),
        forall|v: int|
            0 <= v < graph.n && (#[trigger] old(component)@[v]) is Some ==> final(component)@[v]
                == old(component)@[v],
        forall|v: int|
            0 <= v < graph.n && (#[trigger] old(component)@[v]) is None ==> final(component)@[v]
                is None || final(component)@[v] == Some(component_no),
        forall|w: int|
            0 <= w < graph.n && old(component)@[w] is None && #[trigger] final(component)@[w] == Some(
                component_no,
            ) ==> reaches_unlabelled(*graph, old(component)@, vertex, w as usize),
        forall|w: int|
            0 <= w < graph.n && #[trigger] reaches_unlabelled(*graph, old(component)@, vertex, w as usize)
                ==> final(component)@[w] == Some(component_no),
        forall|u: int, j: int|
            0 <= u < graph.n && old(component)@[u] is None && final(component)@[u] == Some(component_no)
                && 0 <= j < graph.outedges@[u].len() ==> {
                let w = (#[trigger] graph.outedges@[u]@[j]) as int;
                final(component)@[w] == if old(component)@[w] is None {
                    Some(component_no)
                } else {
                    old(component)@[w]
                }
            },
        component_no >= 1 && labels_within(old(component)@, (component_no - 1) as usize)
            ==> labels_within(final(component)@, component_no),
        component_no >= 1 && labels_within(old(component)@, (component_no - 1) as usize) && closed(
            *graph,
            old(component)@,
        ) ==> closed(*graph, final(component)@),
{
    let ghost n = graph.n as int;
    let ghost start = component@;
    let ghost all = set_int_range(0, n);
    proof {
        lemma_int_range(0, n);
    }
    component.set(vertex, Some(component_no));
    let mut stack: Vec<usize> = Vec::new();
    stack.push(vertex);
    let ghost mut newly: Set<int> = set![vertex as int];
    let ghost mut walks: Map<int, Seq<usize>> = map![vertex as int => seq![vertex]];
    proof {
        assert(newly.len() == 1);
        assert forall|u: int, j: int|
            0 <= u < n && start[u] is None && component@[u] == Some(component_no)
                && !stack@.contains(u as usize) && 0 <= j < graph.outedges@[u].len() implies component@[(
            #[trigger] graph.outedges@[u]@[j]) as int] is Some by {
            if u == vertex {
                assert(stack@[0] == vertex);
            }
        }
    }
    while stack.len() > 0
        invariant
            graph.wf(),
            n == graph.n,
            all == set_int_range(0, n),
            all.finite(),
            all.len() == n,
            component.len() == n,
            start.len() == n,
            vertex < n,
            start[vertex as int] is None,
            component@[vertex as int] == Some(component_no),
            forall|v: int| 0 <= v < n && (#[trigger] start[v]) is Some ==> component@[v] == start[v],
            forall|v: int|
                0 <= v < n && (#[trigger] start[v]) is None ==> component@[v] is None
                    || component@[v] == Some(component_no),
            forall|i: int|
                0 <= i < stack.len() ==> #[trigger] stack@[i] < n && start[stack@[i] as int] is None
                    && component@[stack@[i] as int] == Some(component_no),
            expanded_except(*graph, start, component@, component_no, stack@),
            forall|v: int| #[trigger]
                newly.contains(v) <==> (0 <= v < n && start[v] is None && component@[v] == Some(
                    component_no,
                )),
            forall|x: int| #[trigger]
                newly.contains(x) ==> walks.contains_key(x) && is_walk(*graph, walks[x])
                    && walks[x][0] == vertex && walks[x].last() == x && forall|i: int|
                    0 <= i < walks[x].len() ==> start[(#[trigger] walks[x][i]) as int] is None,
            newly.subset_of(all),
        decreases n - newly.len(), stack.len(),
    {
        proof {
            lemma_len_subset(newly, all);
        }
        let ghost newly0 = newly;
        let ghost depth0 = stack.len();
        let ghost old_stack = stack@;
        let u = stack.pop().unwrap();
        proof {
            assert(old_stack[old_stack.len() - 1] == u);
            assert(old_stack =~= stack@.push(u));
        }
        let mut j: usize = 0;
        while j < graph.outedges[u].len()
            invariant
                graph.wf(),
                n == graph.n,
                u < n,
                all == set_int_range(0, n),
                all.finite(),
                component.len() == n,
                vertex < n,
                start.len() == n,
                start[vertex as int] is None,
                start[u as int] is None,
                component@[vertex as int] == Some(component_no),
                component@[u as int] == Some(component_no),
                forall|v: int| 0 <= v < n && (#[trigger] start[v]) is Some ==> component@[v] == start[v],
                forall|v: int|
                    0 <= v < n && (#[trigger] start[v]) is None ==> component@[v] is None
                        || component@[v] == Some(component_no),
                forall|i: int|
                    0 <= i < stack.len() ==> #[trigger] stack@[i] < n && start[stack@[i] as int] is None
                        && component@[stack@[i] as int] == Some(component_no),
                expanded_except(*graph, start, component@, component_no, stack@.push(u)),
                forall|k: int|
                    0 <= k < j ==> (#[trigger] component@[graph.outedges@[u as int]@[k] as int]) is Some,
                j <= graph.outedges@[u as int].len(),
                forall|v: int| #[trigger]
                    newly.contains(v) <==> (0 <= v < n && start[v] is None && component@[v] == Some(
                        component_no,
                    )),
                newly.subset_of(all),
                newly0.subset_of(newly),
                newly.len() - newly0.len() == stack.len() - (depth0 - 1),
                forall|x: int| #[trigger]
                    newly.contains(x) ==> walks.contains_key(x) && is_walk(*graph, walks[x])
                        && walks[x][0] == vertex && walks[x].last() == x && forall|i: int|
                        0 <= i < walks[x].len() ==> start[(#[trigger] walks[x][i]) as int] is None,
                newly.finite(),
            decreases graph.outedges@[u as int].len() - j,
        {
            let w = graph.outedges[u][j];
            assert(w < n);
            if component[w].is_none() {
                let ghost before = component@;
                let ghost stack_before = stack@;
                component.set(w, Some(component_no));
                stack.push(w);
                proof {
                    assert(start[w as int] is None);
                    assert(!newly.contains(w as int));
                    assert(newly.contains(u as int));
                    let pw = walks[u as int].push(w);
                    assert(is_walk(*graph, pw)) by {
                        assert forall|i: int| 0 <= i < pw.len() - 1 implies graph.outedges@[(
                        #[trigger] pw[i]) as int]@.contains(pw[i + 1]) by {
                            if i == pw.len() - 2 {
                                assert(graph.outedges@[u as int]@[j as int] == w);
                            } else {
                                assert(pw[i] == walks[u as int][i] && pw[i + 1] == walks[u as int][i + 1]);
                            }
                        }
                        assert forall|i: int| 0 <= i < pw.len() implies #[trigger] pw[i] < n by {
                            if i < pw.len() - 1 {
                                assert(pw[i] == walks[u as int][i]);
                            }
                        }
                    }
                    assert forall|i: int| 0 <= i < pw.len() implies start[(#[trigger] pw[i]) as int] is None by {
                        if i < pw.len() - 1 {
                            assert(pw[i] == walks[u as int][i]);
                        }
                    }
                    walks = walks.insert(w as int, pw);
                    newly = newly.insert(w as int);
                    assert(stack@.push(u)[stack.len() - 1] == w);
                    assert forall|uu: int, jj: int|
                        0 <= uu < n && start[uu] is None && component@[uu] == Some(component_no)
                            && !stack@.push(u).contains(uu as usize) && 0 <= jj
                            < graph.outedges@[uu].len() implies component@[(
                    #[trigger] graph.outedges@[uu]@[jj]) as int] is Some by {
                        assert(uu != w);
                        assert(before[uu] == Some(component_no));
                        if stack_before.push(u).contains(uu as usize) {
                            let i = choose|i: int|
                                0 <= i < stack_before.len() + 1 && stack_before.push(u)[i] == uu;
                            if i < stack_before.len() {
                                assert(stack@.push(u)[i] == uu);
                            } else {
                                assert(stack@.push(u)[stack.len() as int] == uu);
                            }
                        }
                        assert(before[graph.outedges@[uu]@[jj] as int] is Some);
                    }
                    assert forall|v: int| #[trigger]
                        newly.contains(v) <==> (0 <= v < n && start[v] is None && component@[v]
                            == Some(component_no)) by {
                        if 0 <= v < n && v != w {
                            assert(component@[v] == before[v]);
                        }
                    }
                }
            }
            j += 1;
        }
        proof {
            assert forall|uu: int, jj: int|
                0 <= uu < n && start[uu] is None && component@[uu] == Some(component_no)
                    && !stack@.contains(uu as usize) && 0 <= jj < graph.outedges@[uu].len()
                    implies component@[(#[trigger] graph.outedges@[uu]@[jj]) as int] is Some by {
                if uu != u {
                    assert(!stack@.push(u).contains(uu as usize)) by {
                        if stack@.push(u).contains(uu as usize) {
                            let i = choose|i: int|
                                0 <= i < stack.len() + 1 && stack@.push(u)[i] == uu;
                            assert(stack@[i] == uu);
                        }
                    }
                }
            }
            lemma_len_subset(newly, all);
            lemma_len_subset(newly0, newly);
        }
    }
    proof {
        assert(stack@ =~= seq![]);
        let fin = component@;
        assert forall|w: int|
            0 <= w < n && start[w] is None && #[trigger] fin[w] == Some(component_no)
                implies reaches_unlabelled(*graph, start, vertex, w as usize) by {
            assert(newly.contains(w));
            let p = walks[w];
            assert(is_walk(*graph, p));
        }
        assert forall|w: int|
            0 <= w < n && #[trigger] reaches_unlabelled(*graph, start, vertex, w as usize)
                implies fin[w] == Some(component_no) by {
            let p = choose|p: Seq<usize>|
                is_walk(*graph, p) && p[0] == vertex && p.last() == w as usize && forall|i: int|
                    0 <= i < p.len() ==> start[(#[trigger] p[i]) as int] is None;
            lemma_walk_marked(*graph, start, fin, p, component_no, p.len() - 1);
        }
        assert forall|u: int, j: int|
            0 <= u < n && start[u] is None && fin[u] == Some(component_no) && 0 <= j
                < graph.outedges@[u].len() implies {
            let w = (#[trigger] graph.outedges@[u]@[j]) as int;
            fin[w] == if start[w] is None {
                Some(component_no)
            } else {
                start[w]
            }
        } by {
            let w = graph.outedges@[u]@[j] as int;
            assert(fin[w] is Some);
            assert(0 <= w < n);
        }
        if component_no >= 1 && labels_within(start, (component_no - 1) as usize) {
            assert forall|v: int| 0 <= v < n && #[trigger] fin[v] is Some implies 1 <= fin[v].unwrap()
                <= component_no by {
                if start[v] is Some {
                    assert(fin[v] == start[v]);
                }
            }
            if closed(*graph, start) {
                assert forall|u: int, j: int|
                    0 <= u < n && fin[u] is Some && !seq![].contains(u as usize) && 0 <= j
                        < graph.outedges@[u].len() implies {
                    let w = #[trigger] graph.outedges@[u]@[j] as int;
                    &&& fin[w] is Some
                    &&& fin[w].unwrap() <= fin[u].unwrap()
                } by {
                    let w = graph.outedges@[u]@[j] as int;
                    assert(0 <= w < n);
                    if start[u] is Some {
                        assert(!seq![].contains(u as usize));
                        assert(start[w] is Some);
                        assert(fin[w] == start[w]);
                    } else {
                        assert(fin[w] is Some);
                        if start[w] is Some {
                            assert(fin[w] == start[w]);
                        }
                    }
                }
            }
        }
    }
}

/// A walk from `from` to `w` all of whose vertices carry the label `l`.
pub open spec fn reaches_within(
    g: Graph,
    labels: Seq<Option<usize>>,
    from: usize,
    w: usize,
    l: usize,
) -> bool {
    exists|p: Seq<usize>|
        #![trigger is_walk(g, p)]
        is_walk(g, p) && p[0] == from && p.last() == w && forall|i: int|
            0 <= i < p.len() ==> labels[(#[trigger] p[i]) as int] == Some(l)
}

/// `w` is reached, inside its component, from the component's seed: the first
/// vertex that carries its label.
pub open spec fn reached_from_seed(g: Graph, labels: Seq<Option<usize>>, w: usize) -> bool {
    exists|s: usize|
        #![trigger labels[s as int]]
        s <= w && labels[s as int] == labels[w as int] && (forall|x: int|
            0 <= x < s ==> labels[x] != labels[s as int]) && reaches_within(
            g,
            labels,
            s,
            w,
            labels[w as int].unwrap(),
        )
}

/// Every vertex of a walk through unlabelled vertices is reached from its
/// first vertex through unlabelled vertices.
proof fn lemma_prefix_reaches(
    g: Graph,
    labels: Seq<Option<usize>>,
    from: usize,
    p: Seq<usize>,
    i: int,
)
    requires
        is_walk(g, p),
        p[0] == from,
        forall|k: int| 0 <= k < p.len() ==> labels[(#[trigger] p[k]) as int] is None,
        0 <= i < p.len(),
    ensures
        reaches_unlabelled(g, labels, from, p[i]),
{
    let q = p.subrange(0, i + 1);
    assert forall|k: int| 0 <= k < q.len() implies #[trigger] q[k] < g.n by {
        assert(q[k] == p[k]);
    }
    assert forall|k: int| 0 <= k < q.len() - 1 implies g.outedges@[(#[trigger] q[k]) as int]@.contains(
        q[k + 1],
    ) by {
        assert(q[k] == p[k] && q[k + 1] == p[k + 1]);
    }
    assert forall|k: int| 0 <= k < q.len() implies labels[(#[trigger] q[k]) as int] is None by {
        assert(q[k] == p[k]);
    }
    assert(is_walk(g, q));
}

/// Every vertex carries a label.
pub open spec fn all_labelled(labels: Seq<Option<usize>>) -> bool {
    forall|v: int| 0 <= v < labels.len() ==> #[trigger] labels[v] is Some
}

/// `s` is the first vertex that carries its label.
pub open spec fn is_seed(labels: Seq<Option<usize>>, s: int) -> bool {
    forall|x: int| 0 <= x < s ==> labels[x] != labels[s]
}

/// Labels are numbered in seed order: every vertex before a labelled seed is
/// labelled with a smaller number, vertex 0 as a seed carries 1, and a later
/// seed carries one more than some earlier label.
pub open spec fn numbered_by_seeds(labels: Seq<Option<usize>>) -> bool {
    forall|s: int|
        0 <= s < labels.len() && labels[s] is Some && #[trigger] is_seed(labels, s) ==> {
            &&& forall|x: int| 0 <= x < s ==> labels[x] is Some && labels[x].unwrap() < labels[s].unwrap()
            &&& s == 0 ==> labels[s] == Some(1usize)
            &&& s > 0 ==> exists|x: int| 0 <= x < s && labels[x].unwrap() + 1 == labels[s].unwrap()
        }
}

/// One seeding step of the labelling: what the traversal from the unlabelled
/// vertex `v` with label `count` keeps of the loop's invariant.
proof fn lemma_seed_step(
    g: Graph,
    before: Seq<Option<usize>>,
    after: Seq<Option<usize>>,
    v: usize,
    count: usize,
)
    requires
        g.wf(),
        before.len() == g.n,
        after.len() == g.n,
        v < g.n,
        before[v as int] is None,
        1 <= count <= v + 1,
        v > 0 ==> count >= 2,
        count >= 2 ==> exists|x: int| 0 <= x < v && before[x] == Some((count - 1) as usize),
        forall|w: int| 0 <= w < v ==> #[trigger] before[w] is Some,
        labels_within(before, (count - 1) as usize),
        numbered_by_seeds(before),
        forall|w: int|
            0 <= w < g.n && before[w] is Some ==> #[trigger] reached_from_seed(g, before, w as usize),
        after[v as int] == Some(count),
        forall|w: int| 0 <= w < g.n && (#[trigger] before[w]) is Some ==> after[w] == before[w],
        forall|w: int|
            0 <= w < g.n && (#[trigger] before[w]) is None ==> after[w] is None || after[w] == Some(
                count,
            ),
        forall|w: int|
            0 <= w < g.n && before[w] is None && #[trigger] after[w] == Some(count)
                ==> reaches_unlabelled(g, before, v, w as usize),
        forall|w: int|
            0 <= w < g.n && #[trigger] reaches_unlabelled(g, before, v, w as usize) ==> after[w]
                == Some(count),
    ensures
        forall|w: int| 0 <= w <= v ==> #[trigger] after[w] is Some,
        numbered_by_seeds(after),
        forall|w: int|
            0 <= w < g.n && after[w] is Some ==> #[trigger] reached_from_seed(g, after, w as usize),
{
    assert forall|w: int| 0 <= w < g.n && #[trigger] after[w] is Some && before[w] is None implies w
        >= v && after[w] == Some(count) by {
        if w < v {
            assert(before[w] is Some);
        }
    }
    assert forall|s: int|
        0 <= s < g.n && after[s] is Some && #[trigger] is_seed(after, s) implies {
        &&& forall|x: int| 0 <= x < s ==> after[x] is Some && after[x].unwrap() < after[s].unwrap()
        &&& s == 0 ==> after[s] == Some(1usize)
        &&& s > 0 ==> exists|x: int| 0 <= x < s && after[x].unwrap() + 1 == after[s].unwrap()
    } by {
        if before[s] is Some {
            assert(is_seed(before, s)) by {
                assert forall|x: int| 0 <= x < s implies before[x] != before[s] by {
                    if before[x] is Some {
                        assert(after[x] == before[x]);
                    }
                }
            }
            assert forall|x: int| 0 <= x < s implies after[x] is Some && after[x].unwrap()
                < after[s].unwrap() by {
                assert(before[x] is Some);
                assert(after[x] == before[x]);
            }
            if s > 0 {
                let x = choose|x: int| 0 <= x < s && before[x].unwrap() + 1 == before[s].unwrap();
                assert(after[x] == before[x]);
            }
        } else {
            if s != v {
                assert(after[v as int] == after[s]);
            }
            assert forall|x: int| 0 <= x < s implies after[x] is Some && after[x].unwrap()
                < after[s].unwrap() by {
                assert(before[x] is Some);
                assert(after[x] == before[x]);
            }
            if s > 0 {
                let x = choose|x: int| 0 <= x < v && before[x] == Some((count - 1) as usize);
                assert(after[x] == before[x]);
            }
        }
    }
    assert forall|w: int| 0 <= w < g.n && after[w] is Some implies #[trigger] reached_from_seed(
        g,
        after,
        w as usize,
    ) by {
        if before[w] is Some {
            assert(reached_from_seed(g, before, w as usize));
            let l = before[w].unwrap();
            let s = choose|s: usize|
                s <= w && before[s as int] == before[w] && (forall|x: int|
                    0 <= x < s ==> before[x] != before[s as int]) && reaches_within(
                    g,
                    before,
                    s,
                    w as usize,
                    l,
                );
            let p = choose|p: Seq<usize>|
                is_walk(g, p) && p[0] == s && p.last() == w as usize && forall|i: int|
                    0 <= i < p.len() ==> before[(#[trigger] p[i]) as int] == Some(l);
            assert forall|i: int| 0 <= i < p.len() implies after[(#[trigger] p[i]) as int] == Some(
                l,
            ) by {
                assert(before[p[i] as int] == Some(l));
            }
            assert(reaches_within(g, after, s, w as usize, l));
            assert(after[w] == before[w]);
            assert(after[s as int] == before[s as int]);
            assert forall|x: int| 0 <= x < s implies after[x] != after[s as int] by {
                if before[x] is Some {
                    assert(after[x] == before[x]);
                }
            }
        } else {
            assert(after[w] == Some(count));
            assert(reaches_unlabelled(g, before, v, w as usize));
            let p = choose|p: Seq<usize>|
                is_walk(g, p) && p[0] == v && p.last() == w as usize && forall|i: int|
                    0 <= i < p.len() ==> before[(#[trigger] p[i]) as int] is None;
            assert forall|i: int| 0 <= i < p.len() implies after[(#[trigger] p[i]) as int] == Some(
                count,
            ) by {
                lemma_prefix_reaches(g, before, v, p, i);
                let y = p[i] as int;
                assert(0 <= y < g.n);
                assert(reaches_unlabelled(g, before, v, y as usize));
            }
            assert(reaches_within(g, after, v, w as usize, count));
            assert forall|x: int| 0 <= x < v implies after[x] != after[v as int] by {
                assert(before[x] is Some);
                assert(after[x] == before[x]);
            }
        }
    }
    assert forall|w: int| 0 <= w <= v implies #[trigger] after[w] is Some by {
        if w < v {
            assert(before[w] is Some);
        }
    }
}

/// Labels every vertex with a component number. Vertices are taken in index
/// order; each one still unlabelled opens the next component (numbered from
/// 1) and labels what it reaches along out-edges.
pub fn label_components(graph: &Graph) -> (r: Vec<Option<usize>>)
    requires
        graph.wf(),
    ensures
        r.len() == graph.n,
        all_labelled(r@),
        labels_within(r@, graph.n),
        closed(*graph, r@),
        numbered_by_seeds(r@),
        forall|w: int| 0 <= w < graph.n ==> #[trigger] reached_from_seed(*graph, r@, w as usize),
        forall|u: int, j: int, k: int|
            0 <= u < graph.n && 0 <= j < graph.outedges@[u].len() && 0 <= k
                < graph.outedges@[graph.outedges@[u]@[j] as int].len()
                && #[trigger] graph.outedges@[graph.outedges@[u]@[j] as int]@[k] == u ==> r@[u]
                == #[trigger] r@[graph.outedges@[u]@[j] as int],
{
    let mut component: Vec<Option<usize>> = Vec::new();
    let mut v: usize = 0;
    while v < graph.n
        invariant
            v <= graph.n,
            component.len() == v,
            forall|w: int| 0 <= w < v ==> #[trigger] component@[w] is None,
        decreases graph.n - v,
    {
        component.push(None);
        v += 1;
    }
    assert(closed(*graph, component@));
    assert(numbered_by_seeds(component@));
    let mut count: usize = 0;
    let mut v: usize = 0;
    while v < graph.n
        invariant
            graph.wf(),
            v <= graph.n,
            count <= v,
            v > 0 ==> count >= 1,
            count >= 1 ==> exists|x: int| 0 <= x < v && component@[x] == Some(count),
            component.len() == graph.n,
            forall|w: int| 0 <= w < v ==> #[trigger] component@[w] is Some,
            labels_within(component@, count),
            closed(*graph, component@),
            numbered_by_seeds(component@),
            forall|w: int|
                0 <= w < graph.n && component@[w] is Some ==> #[trigger] reached_from_seed(
                    *graph,
                    component@,
                    w as usize,
                ),
        decreases graph.n - v,
    {
        if component[v].is_none() {
            count += 1;
            let ghost before = component@;
            mark_component_dfs(v, graph, &mut component, count);
            proof {
                lemma_seed_step(*graph, before, component@, v, count);
                assert(component@[v as int] == Some(count));
            }
        } else {
            proof {
                if count >= 1 {
                    let x = choose|x: int| 0 <= x < v && component@[x] == Some(count);
                    assert(0 <= x < v + 1);
                }
            }
        }
        v += 1;
    }
    assert(labels_within(component@, graph.n));
    assert forall|u: int, j: int, k: int|
        0 <= u < graph.n && 0 <= j < graph.outedges@[u].len() && 0 <= k
            < graph.outedges@[graph.outedges@[u]@[j] as int].len()
            && #[trigger] graph.outedges@[graph.outedges@[u]@[j] as int]@[k] == u implies component@[u]
        == #[trigger] component@[graph.outedges@[u]@[j] as int] by {
        let w = graph.outedges@[u]@[j] as int;
        assert(!seq![].contains(u as usize));
        assert(!seq![].contains(w as usize));
        assert(component@[u] is Some);
        assert(component@[w].unwrap() <= component@[u].unwrap());
        assert(component@[w] is Some);
        assert(component@[graph.outedges@[w]@[k] as int].unwrap() <= component@[w].unwrap());
    }
    component
}

} // verus!
