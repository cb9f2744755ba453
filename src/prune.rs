use crate::graph::{induced_adjacency, valid_members, Graph};
use vstd::prelude::*;

verus! {

broadcast use vstd::seq_lib::group_to_multiset_ensures;

/// `a` comes before `b` in the lexicographic order of pairs.
pub open spec fn pair_lt(a: (usize, usize), b: (usize, usize)) -> bool {
    a.0 < b.0 || (a.0 == b.0 && a.1 < b.1)
}

/// `a` comes before `b`, or equals it, in the lexicographic order of pairs.
pub open spec fn pair_le(a: (usize, usize), b: (usize, usize)) -> bool {
    pair_lt(a, b) || a == b
}

/// The key by which pruning ranks a vertex: its out-degree, then its index.
pub open spec fn degree_key(g: Graph, v: usize) -> (usize, usize) {
    (g.outedges@[v as int].len() as usize, v)
}

/// `kept` holds the `count` vertices of `g` with the greatest keys, greatest
/// first; every other vertex has a smaller key than all of them.
pub open spec fn is_top_by_degree(g: Graph, kept: Seq<usize>, count: nat) -> bool {
    &&& kept.len() == count
    &&& valid_members(kept, g.n as nat)
    &&& forall|i: int, j: int|
        0 <= i < j < kept.len() ==> pair_lt(
            degree_key(g, #[trigger] kept[j]),
            degree_key(g, #[trigger] kept[i]),
        )
    &&& forall|v: usize, i: int|
        v < g.n && !kept.contains(v) && 0 <= i < kept.len() ==> pair_lt(
            #[trigger] degree_key(g, v),
            degree_key(g, #[trigger] kept[i]),
        )
}

/// Relies on `slice::sort` (std): the pairs are rearranged into ascending
/// lexicographic order, the order std gives tuples.
#[verifier::external_body]
fn sort_pairs(v: &mut Vec<(usize, usize)>)
    ensures
        final(v)@.to_multiset() == old(v)@.to_multiset(),
        forall|i: int, j: int|
            0 <= i < j < final(v).len() ==> pair_le(#[trigger] final(v)@[i], #[trigger] final(v)@[j]),
{
    v.sort();
}

/// Keeps the `n - n/4` vertices of greatest out-degree (ties go to the higher
/// index) and returns the subgraph that they induce, listed from the greatest
/// key down; its identifiers are the kept vertices of `graph`.
pub fn denser_subgraph(graph: &mut Graph) -> (r: Graph)
    requires
        old(graph).wf(),
    ensures
        *final(graph) == *old(graph),
        r.wf(),
        r.n == old(graph).n - old(graph).n / 4,
        is_top_by_degree(*old(graph), r.id_to_node@, r.n as nat),
        r.adjacency() == induced_adjacency(old(graph).adjacency(), r.id_to_node@),
{
    let g: &Graph = graph;
    let n = g.n;
    let mut pairs: Vec<(usize, usize)> = Vec::new();
    let mut v: usize = 0;
    while v < n
        invariant
            g.wf(),
            n == g.n,
            v <= n,
            pairs.len() == v,
            forall|i: int| 0 <= i < v ==> #[trigger] pairs@[i] == degree_key(*g, i as usize),
        decreases n - v,
    {
        pairs.push((g.outedges[v].len(), v));
        v += 1;
    }
    let ghost unsorted = pairs@;
    proof {
        assert(unsorted.no_duplicates()) by {
            assert forall|i: int, j: int|
                0 <= i < unsorted.len() && 0 <= j < unsorted.len() && i != j implies unsorted[i]
                != unsorted[j] by {
                assert(unsorted[i].1 == i && unsorted[j].1 == j);
            }
        }
        unsorted.lemma_multiset_has_no_duplicates();
    }
    sort_pairs(&mut pairs);
    let ghost sorted = pairs@;
    proof {
        vstd::seq_lib::to_multiset_len(sorted);
        vstd::seq_lib::to_multiset_len(unsorted);
        assert(sorted.len() == n);
        assert forall|x: (usize, usize)| sorted.to_multiset().contains(x) implies sorted.to_multiset().count(x) == 1 by {
            assert(unsorted.to_multiset().contains(x));
        }
        sorted.lemma_multiset_has_no_duplicates_conv();
        assert forall|i: int| 0 <= i < n implies #[trigger] sorted[i] == degree_key(*g, sorted[i].1)
            && sorted[i].1 < n by {
            assert(sorted.contains(sorted[i]));
            assert(sorted.to_multiset().count(sorted[i]) > 0);
            assert(unsorted.contains(sorted[i]));
        }
    }
    let keep = n - n / 4;
    let mut kept: Vec<usize> = Vec::new();
    let mut t: usize = 0;
    while t < keep
        invariant
            keep <= n,
            n == sorted.len(),
            pairs@ == sorted,
            t <= keep,
            kept.len() == t,
            forall|i: int| 0 <= i < t ==> #[trigger] kept@[i] == sorted[n - 1 - i].1,
        decreases keep - t,
    {
        kept.push(pairs[n - 1 - t].1);
        t += 1;
    }
    proof {
        assert forall|a: int, b: int| 0 <= a < b < n implies pair_lt(
            #[trigger] sorted[a],
            #[trigger] sorted[b],
        ) by {
            assert(pair_le(sorted[a], sorted[b]));
        }
        assert(valid_members(kept@, n as nat)) by {
            assert forall|i: int, j: int|
                0 <= i < kept.len() && 0 <= j < kept.len() && i != j implies kept@[i] != kept@[j] by {
                let (a, b) = (n - 1 - i, n - 1 - j);
                assert(sorted[a] == degree_key(*g, sorted[a].1));
                assert(sorted[b] == degree_key(*g, sorted[b].1));
                if a < b {
                    assert(pair_lt(sorted[a], sorted[b]));
                } else {
                    assert(pair_lt(sorted[b], sorted[a]));
                }
            }
            assert forall|i: int| 0 <= i < kept.len() implies #[trigger] kept@[i] < n by {
                assert(sorted[n - 1 - i].1 < n);
            }
        }
        assert forall|i: int, j: int| 0 <= i < j < kept.len() implies pair_lt(
            degree_key(*g, #[trigger] kept@[j]),
            degree_key(*g, #[trigger] kept@[i]),
        ) by {
            assert(sorted[n - 1 - j] == degree_key(*g, sorted[n - 1 - j].1));
            assert(sorted[n - 1 - i] == degree_key(*g, sorted[n - 1 - i].1));
            assert(pair_lt(sorted[n - 1 - j], sorted[n - 1 - i]));
        }
        assert forall|w: usize, i: int|
            w < n && !kept@.contains(w) && 0 <= i < kept.len() implies pair_lt(
            #[trigger] degree_key(*g, w),
            degree_key(*g, #[trigger] kept@[i]),
        ) by {
            assert(unsorted[w as int] == degree_key(*g, w));
            assert(unsorted.to_multiset().count(degree_key(*g, w)) > 0);
            let a = choose|a: int| 0 <= a < n && sorted[a] == degree_key(*g, w);
            if a >= n - keep {
                assert(kept@[n - 1 - a] == w);
            }
            assert(sorted[n - 1 - i] == degree_key(*g, sorted[n - 1 - i].1));
            assert(pair_lt(sorted[a], sorted[n - 1 - i]));
        }
    }
    g.induced_subgraph(&kept)
}

} // verus!
