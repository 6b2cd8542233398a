use vstd::prelude::*;
use crate::query::{clone_node, node_views, QueryNode, SpecNode};

verus! {

// Term matching strategies: when a strict query yields nothing, a strategy
// decides which query nodes may be dropped.  `All` never drops a node;
// `Last` drops single-term nodes one at a time starting from the end of the
// query, never touching phrases.

#[derive(Clone, Copy, PartialEq, Eq)]
pub enum TermsMatchingStrategy {
    Last,
    All,
}

/// Number of removable (single-term) nodes of a graph.
pub open spec fn spec_removable_count(g: Seq<SpecNode>) -> nat
    decreases g.len(),
{
    if g.len() == 0 {
        0
    } else {
        spec_removable_count(g.drop_last()) + if g.last() is Term {
            1nat
        } else {
            0nat
        }
    }
}

/// The graph with its last removable term node elided; phrases stay.
pub open spec fn spec_remove_last_term(g: Seq<SpecNode>) -> Seq<SpecNode>
    decreases g.len(),
{
    if g.len() == 0 {
        g
    } else if g.last() is Term {
        g.drop_last()
    } else {
        spec_remove_last_term(g.drop_last()).push(g.last())
    }
}

/// The `k`-th variant under the `Last` strategy: the graph with its last `k`
/// removable term nodes elided.
pub open spec fn spec_variant(g: Seq<SpecNode>, k: nat) -> Seq<SpecNode>
    decreases k,
{
    if k == 0 {
        g
    } else {
        spec_remove_last_term(spec_variant(g, (k - 1) as nat))
    }
}

/// The ordered sequence of query graph variants, strictest first.
pub open spec fn spec_variants(g: Seq<SpecNode>, st: TermsMatchingStrategy) -> Seq<Seq<SpecNode>> {
    match st {
        TermsMatchingStrategy::All => seq![g],
        TermsMatchingStrategy::Last => Seq::new(
            spec_removable_count(g) + 1,
            |i: int| spec_variant(g, i as nat),
        ),
    }
}

/// The phrase nodes of a graph, in order.
pub open spec fn spec_phrases(g: Seq<SpecNode>) -> Seq<SpecNode>
    decreases g.len(),
{
    if g.len() == 0 {
        g
    } else if g.last() is Phrase {
        spec_phrases(g.drop_last()).push(g.last())
    } else {
        spec_phrases(g.drop_last())
    }
}

/// Removing the last term keeps every phrase node.
pub proof fn lemma_remove_last_term_phrases(g: Seq<SpecNode>)
    ensures
        spec_phrases(spec_remove_last_term(g)) == spec_phrases(g),
    decreases g.len(),
{
    if g.len() == 0 {
    } else if g.last() is Term {
    } else {
        lemma_remove_last_term_phrases(g.drop_last());
        let r = spec_remove_last_term(g.drop_last());
        assert(spec_phrases(r.push(g.last())) == spec_phrases(r).push(g.last())) by {
            assert(r.push(g.last()).drop_last() =~= r);
        }
    }
}

/// Phrase preservation: no variant produced by any strategy omits a phrase
/// node of the original query graph.
pub proof fn lemma_variant_phrases(g: Seq<SpecNode>, k: nat)
    ensures
        spec_phrases(spec_variant(g, k)) == spec_phrases(g),
    decreases k,
{
    if k == 0 {
    } else {
        lemma_variant_phrases(g, (k - 1) as nat);
        lemma_remove_last_term_phrases(spec_variant(g, (k - 1) as nat));
    }
}

/// Every node of the reduced graph is a node of the original graph.
pub proof fn lemma_remove_last_term_contains(g: Seq<SpecNode>, n: SpecNode)
    requires
        spec_remove_last_term(g).contains(n),
    ensures
        g.contains(n),
    decreases g.len(),
{
    if g.len() == 0 {
    } else if g.last() is Term {
        let i = choose|i: int|
            0 <= i < g.drop_last().len() && g.drop_last()[i] == n;
        assert(g[i] == n);
    } else {
        let r = spec_remove_last_term(g.drop_last());
        let i = choose|i: int| 0 <= i < r.len() + 1 && r.push(g.last())[i] == n;
        if i < r.len() {
            lemma_remove_last_term_contains(g.drop_last(), n);
            let j = choose|j: int| 0 <= j < g.drop_last().len() && g.drop_last()[j] == n;
            assert(g[j] == n);
        } else {
            assert(g.last() == n);
        }
    }
}

/// Every node of a looser variant is a node of the stricter one before it.
pub proof fn lemma_variant_contains(g: Seq<SpecNode>, k: nat, n: SpecNode)
    requires
        spec_variant(g, k + 1).contains(n),
    ensures
        spec_variant(g, k).contains(n),
{
    lemma_remove_last_term_contains(spec_variant(g, k), n);
}

spec fn no_term(g: Seq<SpecNode>) -> bool {
    forall|i: int| 0 <= i < g.len() ==> !(g[i] is Term)
}

proof fn lemma_remove_last_term_none(g: Seq<SpecNode>)
    requires
        no_term(g),
    ensures
        spec_remove_last_term(g) == g,
    decreases g.len(),
{
    if g.len() == 0 {
    } else {
        assert(!(g.last() is Term));
        assert(no_term(g.drop_last()));
        lemma_remove_last_term_none(g.drop_last());
        assert(spec_remove_last_term(g.drop_last()).push(g.last()) =~= g);
    }
}

proof fn lemma_remove_last_term_at(g: Seq<SpecNode>, j: int)
    requires
        0 <= j < g.len(),
        g[j] is Term,
        forall|i: int| j < i < g.len() ==> !(g[i] is Term),
    ensures
        spec_remove_last_term(g) == g.remove(j),
    decreases g.len(),
{
    if j == g.len() - 1 {
        assert(spec_remove_last_term(g) == g.drop_last());
        assert(g.remove(j) =~= g.drop_last());
    } else {
        assert(!(g.last() is Term));
        lemma_remove_last_term_at(g.drop_last(), j);
        assert(spec_remove_last_term(g) == g.drop_last().remove(j).push(g.last()));
        assert(g.drop_last().remove(j).push(g.last()) =~= g.remove(j));
    }
}

/// Count the removable term nodes of a graph.
pub fn removable_count(g: &Vec<QueryNode>) -> (r: usize)
    ensures
        r == spec_removable_count(node_views(g@)),
{
    let mut r: usize = 0;
    let mut i: usize = 0;
    proof {
        assert(node_views(g@).take(0) =~= Seq::<SpecNode>::empty());
    }
    while i < g.len()
        invariant
            i <= g@.len(),
            r == spec_removable_count(node_views(g@).take(i as int)),
            r <= i,
        decreases g@.len() - i,
    {
        proof {
            assert(node_views(g@).take(i + 1).drop_last() =~= node_views(g@).take(i as int));
            assert(node_views(g@).take(i + 1).last() == g@[i as int].view());
        }
        match &g[i] {
            QueryNode::Term(_) => {
                r = r + 1;
            },
            QueryNode::Phrase(_) => {},
        }
        i = i + 1;
    }
    proof {
        assert(node_views(g@).take(g@.len() as int) =~= node_views(g@));
    }
    r
}

/// Copy a query graph.
pub fn clone_graph(g: &Vec<QueryNode>) -> (r: Vec<QueryNode>)
    ensures
        node_views(r@) == node_views(g@),
{
    let mut r: Vec<QueryNode> = Vec::new();
    let mut i: usize = 0;
    proof {
        assert(node_views(r@) =~= node_views(g@).take(0));
    }
    while i < g.len()
        invariant
            i <= g@.len(),
            node_views(r@) == node_views(g@).take(i as int),
        decreases g@.len() - i,
    {
        let ghost old_r = r@;
        r.push(clone_node(&g[i]));
        proof {
            assert(node_views(r@) =~= node_views(old_r).push(r@[r@.len() - 1].view()));
            assert(node_views(r@) =~= node_views(g@).take(i + 1));
        }
        i = i + 1;
    }
    proof {
        assert(node_views(g@).take(g@.len() as int) =~= node_views(g@));
    }
    r
}

/// The graph with its last removable term node elided.
pub fn remove_last_term(g: &Vec<QueryNode>) -> (r: Vec<QueryNode>)
    ensures
        node_views(r@) == spec_remove_last_term(node_views(g@)),
{
    let mut last_term: Option<usize> = None;
    let mut i: usize = 0;
    while i < g.len()
        invariant
            i <= g@.len(),
            match last_term {
                Some(j) => j < i && g@[j as int].view() is Term && forall|m: int|
                    j < m < i ==> !(g@[m].view() is Term),
                None => forall|m: int| 0 <= m < i ==> !(g@[m].view() is Term),
            },
        decreases g@.len() - i,
    {
        match &g[i] {
            QueryNode::Term(_) => {
                last_term = Some(i);
            },
            QueryNode::Phrase(_) => {},
        }
        i = i + 1;
    }
    match last_term {
        None => {
            proof {
                assert(forall|m: int|
                    0 <= m < node_views(g@).len() ==> !(node_views(g@)[m] is Term));
                lemma_remove_last_term_none(node_views(g@));
            }
            clone_graph(g)
        },
        Some(j) => {
            proof {
                lemma_remove_last_term_at(node_views(g@), j as int);
            }
            let mut r: Vec<QueryNode> = Vec::new();
            let mut m: usize = 0;
            while m < g.len()
                invariant
                    m <= g@.len(),
                    j < g@.len(),
                    node_views(r@) == if m <= j {
                        node_views(g@).take(m as int)
                    } else {
                        node_views(g@).remove(j as int).take(m - 1)
                    },
                decreases g@.len() - m,
            {
                if m != j {
                    let ghost old_r = r@;
                    r.push(clone_node(&g[m]));
                    proof {
                        assert(node_views(r@) =~= node_views(old_r).push(
                            r@[r@.len() - 1].view()));
                        if m < j {
                            assert(node_views(r@) =~= node_views(g@).take(m + 1));
                        } else {
                            assert(node_views(g@).remove(j as int)[m - 1] == node_views(
                                g@)[m as int]);
                            assert(node_views(r@) =~= node_views(g@).remove(j as int).take(
                                m as int));
                        }
                    }
                } else {
                    proof {
                        assert(node_views(g@).remove(j as int).take(j as int) =~= node_views(
                            g@).take(j as int));
                    }
                }
                m = m + 1;
            }
            proof {
                assert(node_views(g@).remove(j as int).take(g@.len() - 1) =~= node_views(
                    g@).remove(j as int));
            }
            r
        },
    }
}

/// Produce the ordered sequence of query graph variants for a strategy,
/// strictest first.  The sequence is a pure function of the graph and the
/// strategy, so repeated calls yield the same variants.
pub fn reduce(g: &Vec<QueryNode>, st: TermsMatchingStrategy) -> (r: Vec<Vec<QueryNode>>)
    ensures
        r@.map_values(|v: Vec<QueryNode>| node_views(v@)) == spec_variants(node_views(g@), st),
{
    let ghost gv = node_views(g@);
    match st {
        TermsMatchingStrategy::All => {
            let mut r: Vec<Vec<QueryNode>> = Vec::new();
            r.push(clone_graph(g));
            proof {
                assert(r@.map_values(|v: Vec<QueryNode>| node_views(v@)) =~= spec_variants(
                    gv, st));
            }
            r
        },
        TermsMatchingStrategy::Last => {
            let n = removable_count(g);
            let mut r: Vec<Vec<QueryNode>> = Vec::new();
            r.push(clone_graph(g));
            let mut t: usize = 0;
            while t < n
                invariant
                    t <= n,
                    n == spec_removable_count(gv),
                    gv == node_views(g@),
                    r@.len() == t + 1,
                    forall|i: int| 0 <= i <= t ==> node_views(#[trigger] r@[i]@) == spec_variant(
                        gv, i as nat),
                decreases n - t,
            {
                let next = remove_last_term(&r[t]);
                r.push(next);
                t = t + 1;
            }
            proof {
                assert(r@.map_values(|v: Vec<QueryNode>| node_views(v@)) =~= spec_variants(
                    gv, st));
            }
            r
        },
    }
}

} // verus!
