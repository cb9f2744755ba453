use crate::density::{lemma_density_order, Density};
use crate::graph::{edge_total, induced_adjacency, valid_members, Graph};
use std::collections::HashMap;
use vstd::prelude::*;

verus! {

broadcast use vstd::std_specs::hash::group_hash_axioms;

/// Components with this many members or more are left out of the ranking.
pub const MAX_COMPONENT_SIZE: usize = 50;

/// Number of components that the ranking returns at most.
pub const TOP_COUNT: usize = 10;

/// The vertices labelled `l`, in increasing order.
pub open spec fn members_of(labels: Seq<Option<usize>>, l: usize) -> Seq<usize>
    decreases labels.len(),
{
    if labels.len() == 0 {
        seq![]
    } else {
        let rest = members_of(labels.drop_last(), l);
        if labels.last() == Some(l) {
            rest.push((labels.len() - 1) as usize)
        } else {
            rest
        }
    }
}

/// Some vertex carries the label `l`.
pub open spec fn is_label(labels: Seq<Option<usize>>, l: usize) -> bool {
    exists|v: int| 0 <= v < labels.len() && labels[v] == Some(l)
}

/// Density of the subgraph of `g` induced by `members`, over all its vertices:
/// members without an outgoing edge count in the denominator too. The other
/// measure, over vertices with an outgoing edge only (`Graph::calculate_out_density`),
/// was also considered for ranking; which one is meant remains an open
/// question. This one ranks a two-vertex component with one edge at 1/2 and a
/// three-vertex component with three edges at 1.
pub open spec fn component_density(g: Graph, members: Seq<usize>) -> Density {
    Density {
        edges: edge_total(induced_adjacency(g.adjacency(), members)) as usize,
        vertices: members.len() as usize,
    }
}

/// `e` is the component labelled `e.0`, with its density and its members.
pub open spec fn is_component_entry(
    g: Graph,
    labels: Seq<Option<usize>>,
    e: (usize, Density, Vec<usize>),
) -> bool {
    &&& is_label(labels, e.0)
    &&& e.2@ == members_of(labels, e.0)
    &&& e.1 == component_density(g, e.2@)
}

proof fn lemma_members_of(labels: Seq<Option<usize>>, l: usize)
    requires
        labels.len() <= usize::MAX + 1,
    ensures
        forall|j: int|
            0 <= j < members_of(labels, l).len() ==> {
                let x = #[trigger] members_of(labels, l)[j];
                &&& x < labels.len()
                &&& labels[x as int] == Some(l)
            },
        forall|j: int, k: int|
            0 <= j < k < members_of(labels, l).len() ==> members_of(labels, l)[j] < members_of(
                labels,
                l,
            )[k],
        valid_members(members_of(labels, l), labels.len()),
    decreases labels.len(),
{
    if labels.len() > 0 {
        lemma_members_of(labels.drop_last(), l);
    }
    let m = members_of(labels, l);
    assert forall|i: int, j: int| 0 <= i < m.len() && 0 <= j < m.len() && i != j implies m[i]
        != m[j] by {
        if i < j {
            assert(m[i] < m[j]);
        } else {
            assert(m[j] < m[i]);
        }
    }
}

/// Groups the vertices by label: `labels[g]` is the label of group `g` and
/// `members[g]` its vertices in increasing order. Every label that occurs
/// has exactly one group.
pub fn group_components(component: &Vec<Option<usize>>) -> (r: (Vec<usize>, Vec<Vec<usize>>))
    ensures
        r.0.len() == r.1.len(),
        r.0@.no_duplicates(),
        forall|g: int| 0 <= g < r.0.len() ==> is_label(component@, #[trigger] r.0@[g]),
        forall|g: int| 0 <= g < r.1.len() ==> #[trigger] r.1@[g]@ == members_of(component@, r.0@[g]),
        forall|l: usize| is_label(component@, l) ==> #[trigger] r.0@.contains(l),
{
    let mut index: HashMap<usize, usize> = HashMap::new();
    let mut labels: Vec<usize> = Vec::new();
    let mut members: Vec<Vec<usize>> = Vec::new();
    let mut v: usize = 0;
    while v < component.len()
        invariant
            v <= component.len(),
            labels.len() == members.len(),
            labels@.no_duplicates(),
            forall|l: usize| #[trigger] index@.contains_key(l) <==> labels@.contains(l),
            forall|g: int| 0 <= g < labels.len() ==> #[trigger] index@[labels@[g]] == g,
            forall|g: int|
                0 <= g < labels.len() ==> is_label(component@.take(v as int), #[trigger] labels@[g]),
            forall|g: int|
                0 <= g < members.len() ==> #[trigger] members@[g]@ == members_of(
                    component@.take(v as int),
                    labels@[g],
                ),
            forall|l: usize| #[trigger] is_label(component@.take(v as int), l) ==> labels@.contains(l),
        decreases component.len() - v,
    {
        let ghost pre = component@.take(v as int);
        let ghost next = component@.take(v as int + 1);
        assert(next.drop_last() =~= pre);
        assert(next.last() == component@[v as int]);
        assert forall|l: usize| is_label(pre, l) implies #[trigger] is_label(next, l) by {
            let w = choose|w: int| 0 <= w < pre.len() && pre[w] == Some(l);
            assert(next[w] == Some(l));
        }
        assert forall|l: usize| #[trigger] is_label(next, l) implies is_label(pre, l) || component@[v as int] == Some(l) by {
            let w = choose|w: int| 0 <= w < next.len() && next[w] == Some(l);
            if w < v {
                assert(pre[w] == Some(l));
            }
        }
        match component[v] {
            Some(l) => {
                assert(is_label(next, l)) by {
                    assert(next[v as int] == Some(l));
                }
                match index.get(&l) {
                    Some(g) => {
                        let g = *g;
                        let ghost g0 = choose|g0: int| 0 <= g0 < labels.len() && labels@[g0] == l;
                        assert(index@[labels@[g0]] == g0);
                        members[g].push(v);
                        assert forall|h: int| 0 <= h < members.len() implies #[trigger] members@[h]@
                            == members_of(next, labels@[h]) by {
                            if h != g {
                                assert(labels@[h] != l);
                            }
                        }
                    },
                    None => {
                        proof {
                            lemma_members_of(pre, l);
                            if members_of(pre, l).len() > 0 {
                                let x = members_of(pre, l)[0];
                                assert(pre[x as int] == Some(l));
                                assert(is_label(pre, l));
                            }
                            assert(members_of(pre, l).len() == 0);
                            assert(members_of(next, l) =~= seq![v]);
                        }
                        let ghost old_labels = labels@;
                        index.insert(l, labels.len());
                        labels.push(l);
                        let mut single: Vec<usize> = Vec::new();
                        single.push(v);
                        members.push(single);
                        assert forall|k: usize| labels@.contains(k) <==> old_labels.contains(k)
                            || k == l by {
                            if old_labels.contains(k) {
                                let h = choose|h: int| 0 <= h < old_labels.len() && old_labels[h] == k;
                                assert(labels@[h] == k);
                            }
                            if k == l {
                                assert(labels@[old_labels.len() as int] == k);
                            }
                            if labels@.contains(k) && k != l {
                                let h = choose|h: int| 0 <= h < labels.len() && labels@[h] == k;
                                assert(old_labels[h] == k);
                            }
                        }
                        assert(members@[members.len() - 1]@ =~= members_of(next, l));
                    },
                }
            },
            None => {},
        }
        v += 1;
    }
    assert(component@.take(v as int) =~= component@);
    (labels, members)
}

/// Some entry of `r` carries the label `l`.
pub open spec fn lists_label(r: Seq<(usize, Density, Vec<usize>)>, l: usize) -> bool {
    exists|i: int| 0 <= i < r.len() && r[i].0 == l
}

/// Entries in order of non-increasing density.
pub open spec fn densest_first(r: Seq<(usize, Density, Vec<usize>)>) -> bool {
    forall|i: int, j: int| 0 <= i < j < r.len() ==> (#[trigger] r[j]).1.spec_le((#[trigger] r[i]).1)
}

/// Ranks the components with fewer than `MAX_COMPONENT_SIZE` members by the
/// density of their induced subgraphs, densest first, and returns the first
/// `TOP_COUNT` of them. Unlabelled vertices belong to no component.
/// Densities divide by every member (see `component_density`), not only by
/// the members with an outgoing edge; this choice is an open question.
pub fn find_densest_components(graph: &Graph, component: &Vec<Option<usize>>) -> (r: Vec<
    (usize, Density, Vec<usize>),
>)
    requires
        graph.wf(),
        component.len() == graph.n,
    ensures
        r.len() <= TOP_COUNT,
        forall|i: int|
            0 <= i < r.len() ==> is_component_entry(*graph, component@, #[trigger] r@[i])
                && r@[i].2.len() < MAX_COMPONENT_SIZE,
        forall|i: int, j: int| 0 <= i < j < r.len() ==> (#[trigger] r@[i]).0 != (#[trigger] r@[j]).0,
        densest_first(r@),
        forall|l: usize|
            #![trigger lists_label(r@, l)]
            is_label(component@, l) && members_of(component@, l).len() < MAX_COMPONENT_SIZE
                && !lists_label(r@, l) ==> r.len() == TOP_COUNT && component_density(
                *graph,
                members_of(component@, l),
            ).spec_le(r@[TOP_COUNT - 1].1),
{
    let (labels, members) = group_components(component);
    let mut ranked: Vec<(usize, Density, Vec<usize>)> = Vec::new();
    let mut g: usize = 0;
    while g < labels.len()
        invariant
            graph.wf(),
            component.len() == graph.n,
            g <= labels.len(),
            labels.len() == members.len(),
            labels@.no_duplicates(),
            forall|h: int| 0 <= h < labels.len() ==> is_label(component@, #[trigger] labels@[h]),
            forall|l: usize| is_label(component@, l) ==> #[trigger] labels@.contains(l),
            forall|h: int|
                0 <= h < members.len() ==> #[trigger] members@[h]@ == members_of(
                    component@,
                    labels@[h],
                ),
            forall|i: int|
                0 <= i < ranked.len() ==> is_component_entry(*graph, component@, #[trigger] ranked@[i])
                    && ranked@[i].2.len() < MAX_COMPONENT_SIZE
                    && labels@.take(g as int).contains(ranked@[i].0),
            forall|i: int, j: int|
                0 <= i < j < ranked.len() ==> (#[trigger] ranked@[i]).0 != (#[trigger] ranked@[j]).0,
            densest_first(ranked@),
            forall|h: int|
                0 <= h < g && members@[h].len() < MAX_COMPONENT_SIZE ==> lists_label(
                    ranked@,
                    #[trigger] labels@[h],
                ),
        decreases labels.len() - g,
    {
        if members[g].len() < MAX_COMPONENT_SIZE {
            proof {
                lemma_members_of(component@, labels@[g as int]);
            }
            let sub = graph.induced_subgraph(&members[g]);
            let d = sub.calculate_density();
            let mut p: usize = 0;
            let mut found = false;
            while p < ranked.len() && !found
                invariant
                    p <= ranked.len(),
                    forall|q: int| 0 <= q < p ==> d.spec_le(#[trigger] ranked@[q].1),
                    found ==> p < ranked.len() && !d.spec_le(ranked@[p as int].1),
                decreases ranked.len() - p + if found {
                    0int
                } else {
                    1int
                },
            {
                if d.at_most(&ranked[p].1) {
                    p += 1;
                } else {
                    found = true;
                }
            }
            let ghost before = ranked@;
            let entry = (labels[g], d, members[g].clone());
            ranked.insert(p, entry);
            proof {
                assert(ranked@ == before.insert(p as int, entry));
                assert forall|i: int, j: int| 0 <= i < j < ranked.len() implies (#[trigger] ranked@[
                    j
                ]).1.spec_le((#[trigger] ranked@[i]).1) by {
                    if j < p {
                        assert(ranked@[i] == before[i] && ranked@[j] == before[j]);
                    } else if j == p {
                        assert(ranked@[i] == before[i]);
                    } else if i == p {
                        // every later entry is at most the first one that `d` exceeds
                        lemma_density_order(d, before[p as int].1, d);
                        assert(ranked@[j] == before[j - 1]);
                        if j - 1 > p {
                            assert(densest_first(before));
                            assert(before[j - 1].1.spec_le(before[p as int].1));
                        }
                        lemma_density_order(before[j - 1].1, before[p as int].1, d);
                    } else if i < p {
                        assert(ranked@[i] == before[i] && ranked@[j] == before[j - 1]);
                    } else {
                        assert(ranked@[i] == before[i - 1] && ranked@[j] == before[j - 1]);
                    }
                }
                let l = labels@[g as int];
                assert forall|i: int| 0 <= i < before.len() implies before[i].0 != l by {
                    let h = choose|h: int| 0 <= h < g && labels@[h] == before[i].0;
                    assert(labels@[h] != labels@[g as int]);
                }
                assert forall|i: int| 0 <= i < ranked.len() implies is_component_entry(
                    *graph,
                    component@,
                    #[trigger] ranked@[i],
                ) && ranked@[i].2.len() < MAX_COMPONENT_SIZE && labels@.take(g + 1).contains(
                    ranked@[i].0,
                ) by {
                    if i < p {
                        assert(ranked@[i] == before[i]);
                    } else if i > p {
                        assert(ranked@[i] == before[i - 1]);
                    }
                    if i == p {
                        assert(labels@.take(g + 1)[g as int] == l);
                    } else {
                        let h = choose|h: int|
                            0 <= h < g && labels@.take(g as int)[h] == ranked@[i].0;
                        assert(labels@.take(g + 1)[h] == ranked@[i].0);
                    }
                }
                assert forall|h: int|
                    0 <= h < g + 1 && members@[h].len() < MAX_COMPONENT_SIZE implies lists_label(
                    ranked@,
                    #[trigger] labels@[h],
                ) by {
                    if h == g {
                        assert(ranked@[p as int].0 == l);
                    } else {
                        let i = choose|i: int| 0 <= i < before.len() && before[i].0 == labels@[h];
                        if i < p {
                            assert(ranked@[i] == before[i]);
                        } else {
                            assert(ranked@[i + 1] == before[i]);
                        }
                    }
                }
            }
        } else {
            proof {
                assert forall|i: int| 0 <= i < ranked.len() implies labels@.take(g + 1).contains(
                    #[trigger] ranked@[i].0,
                ) by {
                    let h = choose|h: int| 0 <= h < g && labels@.take(g as int)[h] == ranked@[i].0;
                    assert(labels@.take(g + 1)[h] == ranked@[i].0);
                }
            }
        }
        g += 1;
    }
    let ghost full = ranked@;
    ranked.truncate(TOP_COUNT);
    proof {
        assert forall|l: usize|
            is_label(component@, l) && members_of(component@, l).len() < MAX_COMPONENT_SIZE
                && !lists_label(ranked@, l) implies #[trigger] lists_label(ranked@, l) || (ranked.len()
            == TOP_COUNT && component_density(*graph, members_of(component@, l)).spec_le(
            ranked@[TOP_COUNT - 1].1,
        )) by {
            assert(labels@.contains(l));
            let h = choose|h: int| 0 <= h < labels.len() && labels@[h] == l;
            assert(lists_label(full, labels@[h]));
            let i = choose|i: int| 0 <= i < full.len() && full[i].0 == l;
            if full.len() <= TOP_COUNT {
                assert(ranked@ == full);
            } else {
                assert(ranked@ == full.subrange(0, TOP_COUNT as int));
            }
            if i < TOP_COUNT {
                assert(ranked@[i] == full[i]);
            } else {
                assert(ranked@[TOP_COUNT - 1] == full[TOP_COUNT - 1]);
                if i > TOP_COUNT - 1 {
                    assert(full[i].1.spec_le(full[TOP_COUNT - 1].1));
                } else {
                    lemma_density_order(full[i].1, full[i].1, full[i].1);
                }
                assert(is_component_entry(*graph, component@, full[i]));
            }
        }
    }
    ranked
}

/// The density of every component, over all of its members, one entry per
/// label and without a size bound.
pub fn component_densities(graph: &Graph, component: &Vec<Option<usize>>) -> (r: Vec<
    (usize, Density),
>)
    requires
        graph.wf(),
        component.len() == graph.n,
    ensures
        forall|i: int|
            0 <= i < r.len() ==> is_label(component@, #[trigger] r@[i].0) && r@[i].1
                == component_density(*graph, members_of(component@, r@[i].0)),
        forall|i: int, j: int| 0 <= i < j < r.len() ==> (#[trigger] r@[i]).0 != (#[trigger] r@[j]).0,
        forall|l: usize|
            is_label(component@, l) ==> exists|i: int| 0 <= i < r.len() && #[trigger] r@[i].0 == l,
{
    let (labels, members) = group_components(component);
    let mut r: Vec<(usize, Density)> = Vec::new();
    let mut g: usize = 0;
    while g < labels.len()
        invariant
            graph.wf(),
            component.len() == graph.n,
            g <= labels.len(),
            labels.len() == members.len(),
            forall|h: int| 0 <= h < labels.len() ==> is_label(component@, #[trigger] labels@[h]),
            forall|h: int|
                0 <= h < members.len() ==> #[trigger] members@[h]@ == members_of(
                    component@,
                    labels@[h],
                ),
            r.len() == g,
            forall|i: int|
                0 <= i < g ==> (#[trigger] r@[i]).0 == labels@[i] && r@[i].1 == component_density(
                    *graph,
                    members_of(component@, labels@[i]),
                ),
        decreases labels.len() - g,
    {
        proof {
            lemma_members_of(component@, labels@[g as int]);
        }
        let sub = graph.induced_subgraph(&members[g]);
        r.push((labels[g], sub.calculate_density()));
        g += 1;
    }
    proof {
        assert forall|i: int, j: int| 0 <= i < j < r.len() implies (#[trigger] r@[i]).0
            != (#[trigger] r@[j]).0 by {
            assert(labels@[i] != labels@[j]);
        }
        assert forall|l: usize| is_label(component@, l) implies exists|i: int|
            0 <= i < r.len() && #[trigger] r@[i].0 == l by {
            assert(labels@.contains(l));
            let h = choose|h: int| 0 <= h < labels.len() && labels@[h] == l;
            assert(r@[h].0 == l);
        }
    }
    r
}

/// Rebuilding the subgraph of a component from its member list and computing
/// its density gives the density that the ranking reports for it.
pub proof fn lemma_rebuilt_subgraph_density(g: Graph, members: Seq<usize>, sub: Graph)
    requires
        g.wf(),
        valid_members(members, g.n as nat),
        sub.n == members.len(),
        sub.adjacency() == induced_adjacency(g.adjacency(), members),
    ensures
        sub.spec_density() == component_density(g, members),
{
}

} // verus!
