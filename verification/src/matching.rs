use vstd::prelude::*;
use crate::index::Index;
use crate::query::{QueryNode, SpecNode};
use crate::{distance, spec_distance};

verus! {

// Matching a document against query nodes, and the proximity cost used by
// the ranking cascade.  All reading goes through the postings view
// `Index::occ`: the positions of a word in a document.

/// Positions of word `w` in document `d`.
pub fn doc_positions(ix: &Index, d: u32, w: &Vec<char>) -> (r: Vec<u32>)
    ensures
        r@ == ix.occ(w@, d as int),
{
    if (d as usize) < ix.docs.len() {
        match &ix.docs[d as usize] {
            Option::Some(e) => {
                let ghost toks = crate::text::token_views(e.tokens@);
                let mut out: Vec<u32> = Vec::new();
                let mut i: usize = 0;
                proof {
                    assert(toks.take(0) =~= Seq::<(Seq<char>, u32)>::empty());
                    assert(out@ =~= crate::index::spec_tok_positions(toks.take(0), w@));
                }
                while i < e.tokens.len()
                    invariant
                        toks == crate::text::token_views(e.tokens@),
                        i <= e.tokens@.len(),
                        toks.len() == e.tokens@.len(),
                        out@ == crate::index::spec_tok_positions(toks.take(i as int), w@),
                    decreases e.tokens@.len() - i,
                {
                    proof {
                        assert(toks.take(i + 1).drop_last() =~= toks.take(i as int));
                        assert(toks.take(i + 1).last() == toks[i as int]);
                        assert(toks[i as int] == (e.tokens@[i as int].word@, e.tokens@[
                        i as int].pos));
                    }
                    if crate::text::chars_eq(&e.tokens[i].word, w) {
                        out.push(e.tokens[i].pos);
                        proof {
                            assert(out@ =~= crate::index::spec_tok_positions(
                                toks.take(i + 1),
                                w@,
                            ));
                        }
                    } else {
                        proof {
                            assert(out@ =~= crate::index::spec_tok_positions(
                                toks.take(i + 1),
                                w@,
                            ));
                        }
                    }
                    i = i + 1;
                }
                proof {
                    assert(toks.take(toks.len() as int) =~= toks);
                }
                out
            },
            Option::None => {
                Vec::new()
            },
        }
    } else {
        Vec::new()
    }
}

/// Word `w` occurs in document `d`.
pub open spec fn spec_word_present(ix: Index, w: Seq<char>, d: int) -> bool {
    ix.occ(w, d).len() > 0
}

/// Some occurrence of `w1` and some occurrence of `w2` in `d` lie within
/// token distance `dmax`.  When the two words are equal, two distinct
/// occurrences are demanded: one token never pairs with itself.
pub open spec fn spec_pair_within(
    ix: Index,
    w1: Seq<char>,
    w2: Seq<char>,
    d: int,
    dmax: u32,
) -> bool {
    exists|p: int, q: int|
        0 <= p < ix.occ(w1, d).len() && 0 <= q < ix.occ(w2, d).len() && (w1 != w2 || p != q)
            && spec_distance(ix.occ(w1, d)[p] as nat, ix.occ(w2, d)[q] as nat) <= dmax
}

pub fn pair_within(ix: &Index, d: u32, w1: &Vec<char>, w2: &Vec<char>, dmax: u32) -> (r: bool)
    ensures
        r == spec_pair_within(*ix, w1@, w2@, d as int, dmax),
{
    let ps = doc_positions(ix, d, w1);
    let qs = doc_positions(ix, d, w2);
    let same = crate::text::chars_eq(w1, w2);
    let mut p: usize = 0;
    while p < ps.len()
        invariant
            ps@ == ix.occ(w1@, d as int),
            qs@ == ix.occ(w2@, d as int),
            same == (w1@ == w2@),
            p <= ps@.len(),
            forall|a: int, b: int|
                #![trigger ps@[a], qs@[b]]
                0 <= a < p && 0 <= b < qs@.len() && (w1@ != w2@ || a != b) ==> spec_distance(
                    ps@[a] as nat,
                    qs@[b] as nat,
                ) > dmax,
        decreases ps@.len() - p,
    {
        let mut q: usize = 0;
        while q < qs.len()
            invariant
                ps@ == ix.occ(w1@, d as int),
                qs@ == ix.occ(w2@, d as int),
                same == (w1@ == w2@),
                p < ps@.len(),
                q <= qs@.len(),
                forall|b: int|
                    0 <= b < q && (w1@ != w2@ || p as int != b) ==> spec_distance(
                        ps@[p as int] as nat,
                        #[trigger] qs@[b] as nat,
                    ) > dmax,
            decreases qs@.len() - q,
        {
            if (!same || p != q) && distance(ps[p], qs[q]) <= dmax {
                proof {
                    assert(spec_distance(ix.occ(w1@, d as int)[p as int] as nat, ix.occ(
                        w2@, d as int)[q as int] as nat) <= dmax);
                }
                return true;
            }
            q = q + 1;
        }
        p = p + 1;
    }
    proof {
        assert(!spec_pair_within(*ix, w1@, w2@, d as int, dmax));
    }
    false
}

/// The token distance from `p` to the nearest occurrence in `qs`, clamped at
/// `max_distance`.
pub open spec fn spec_dist_to_all(p: u32, qs: Seq<u32>) -> u32
    decreases qs.len(),
{
    if qs.len() == 0 {
        8u32
    } else {
        let d1 = spec_distance(p as nat, qs.last() as nat) as u32;
        let d2 = spec_dist_to_all(p, qs.drop_last());
        if d1 < d2 {
            d1
        } else {
            d2
        }
    }
}

/// The minimum token distance between an occurrence in `ps` and one in `qs`,
/// clamped at `max_distance`; `max_distance` when either is empty.
pub open spec fn spec_min_dist(ps: Seq<u32>, qs: Seq<u32>) -> u32
    decreases ps.len(),
{
    if ps.len() == 0 {
        8u32
    } else {
        let d1 = spec_dist_to_all(ps.last(), qs);
        let d2 = spec_min_dist(ps.drop_last(), qs);
        if d1 < d2 {
            d1
        } else {
            d2
        }
    }
}

pub proof fn lemma_dist_to_all_bound(p: u32, qs: Seq<u32>)
    ensures
        spec_dist_to_all(p, qs) <= 8,
    decreases qs.len(),
{
    if qs.len() > 0 {
        lemma_dist_to_all_bound(p, qs.drop_last());
    }
}

pub proof fn lemma_min_dist_bound(ps: Seq<u32>, qs: Seq<u32>)
    ensures
        spec_min_dist(ps, qs) <= 8,
    decreases ps.len(),
{
    if ps.len() > 0 {
        lemma_min_dist_bound(ps.drop_last(), qs);
    }
}

fn dist_to_all(p: u32, qs: &Vec<u32>) -> (r: u32)
    ensures
        r == spec_dist_to_all(p, qs@),
{
    let mut best: u32 = 8;
    let mut i: usize = 0;
    proof {
        assert(qs@.take(0) =~= Seq::<u32>::empty());
    }
    while i < qs.len()
        invariant
            i <= qs@.len(),
            best == spec_dist_to_all(p, qs@.take(i as int)),
        decreases qs@.len() - i,
    {
        proof {
            assert(qs@.take(i + 1).drop_last() =~= qs@.take(i as int));
            assert(qs@.take(i + 1).last() == qs@[i as int]);
        }
        let d = distance(p, qs[i]);
        if d < best {
            best = d;
        }
        i = i + 1;
    }
    proof {
        assert(qs@.take(qs@.len() as int) =~= qs@);
    }
    best
}

/// The minimum token distance between occurrences of two words in `d`.
pub fn min_dist(ix: &Index, d: u32, w1: &Vec<char>, w2: &Vec<char>) -> (r: u32)
    ensures
        r == spec_min_dist(ix.occ(w1@, d as int), ix.occ(w2@, d as int)),
        r <= 8,
{
    let ps = doc_positions(ix, d, w1);
    let qs = doc_positions(ix, d, w2);
    let mut best: u32 = 8;
    let mut i: usize = 0;
    proof {
        assert(ps@.take(0) =~= Seq::<u32>::empty());
    }
    while i < ps.len()
        invariant
            ps@ == ix.occ(w1@, d as int),
            qs@ == ix.occ(w2@, d as int),
            i <= ps@.len(),
            best == spec_min_dist(ps@.take(i as int), qs@),
            best <= 8,
        decreases ps@.len() - i,
    {
        proof {
            assert(ps@.take(i + 1).drop_last() =~= ps@.take(i as int));
            assert(ps@.take(i + 1).last() == ps@[i as int]);
        }
        let d1 = dist_to_all(ps[i], &qs);
        if d1 < best {
            best = d1;
        }
        proof {
            lemma_dist_to_all_bound(ps@[i as int], qs@);
        }
        i = i + 1;
    }
    proof {
        assert(ps@.take(ps@.len() as int) =~= ps@);
    }
    best
}

/// A phrase matches a document when, in every window of up to three of its
/// words, each pair of words has two occurrences no further apart than the
/// pair stands in the phrase.  A single-word phrase is plain presence; an
/// empty phrase matches nothing.
///
/// This windowed pairwise check is the engine's phrase semantics, not exact
/// whole-phrase contiguity: a document assembled from overlapping fragments
/// of the phrase, each fragment carrying every window of it, still matches
/// (the corpus tests pin this for a four-word phrase), while words further
/// than a window apart must still stand in phrase order (the corpus tests
/// pin this for a nine-word phrase).  Within one window the check is exact:
/// adjacent phrase words need adjacent occurrences, and a repeated word
/// needs two occurrences.
pub open spec fn spec_phrase_match(ix: Index, ws: Seq<Seq<char>>, d: int) -> bool {
    if ws.len() == 0 {
        false
    } else if ws.len() == 1 {
        spec_word_present(ix, ws[0], d)
    } else {
        let winsize: int = if ws.len() < 3 {
            ws.len() as int
        } else {
            3
        };
        forall|a: int, b: int|
            0 <= a < b < ws.len() && b - a < winsize ==> spec_pair_within(
                ix,
                ws[a],
                ws[b],
                d,
                (b - a) as u32,
            )
    }
}

pub fn phrase_match(ix: &Index, d: u32, ws: &Vec<Vec<char>>) -> (r: bool)
    ensures
        r == spec_phrase_match(*ix, crate::query::word_views(ws@), d as int),
{
    let ghost wv = crate::query::word_views(ws@);
    let n = ws.len();
    if n == 0 {
        return false;
    }
    if n == 1 {
        let ps = doc_positions(ix, d, &ws[0]);
        proof {
            assert(wv[0] == ws@[0]@);
        }
        return ps.len() > 0;
    }
    let winsize: usize = if n < 3 {
        n
    } else {
        3
    };
    let mut a: usize = 0;
    while a < n
        invariant
            n == ws@.len(),
            wv == crate::query::word_views(ws@),
            2 <= n,
            winsize == if n < 3 {
                n as int
            } else {
                3int
            },
            a <= n,
            forall|x: int, y: int|
                #![trigger wv[x], wv[y]]
                0 <= x < a && x < y < n && y - x < winsize ==> spec_pair_within(
                    *ix,
                    wv[x],
                    wv[y],
                    d as int,
                    (y - x) as u32,
                ),
        decreases n - a,
    {
        let mut b: usize = a + 1;
        while b < n && b - a < winsize
            invariant
                n == ws@.len(),
                wv == crate::query::word_views(ws@),
                2 <= n,
                winsize == if n < 3 {
                    n as int
                } else {
                    3int
                },
                a < n,
                a < b <= n,
                forall|y: int|
                    a < y < b && y - a < winsize ==> spec_pair_within(
                        *ix,
                        wv[a as int],
                        #[trigger] wv[y],
                        d as int,
                        (y - a) as u32,
                    ),
            decreases n - b,
        {
            proof {
                assert(wv[a as int] == ws@[a as int]@);
                assert(wv[b as int] == ws@[b as int]@);
            }
            if !pair_within(ix, d, &ws[a], &ws[b], (b - a) as u32) {
                return false;
            }
            b = b + 1;
        }
        a = a + 1;
    }
    true
}

/// A document matches a node: term presence, or phrase match.
pub open spec fn spec_node_match(ix: Index, n: SpecNode, d: int) -> bool {
    match n {
        SpecNode::Term(w) => spec_word_present(ix, w, d),
        SpecNode::Phrase(ws) => spec_phrase_match(ix, ws, d),
    }
}

pub fn node_match(ix: &Index, d: u32, n: &QueryNode) -> (r: bool)
    ensures
        r == spec_node_match(*ix, n.view(), d as int),
{
    match n {
        QueryNode::Term(w) => {
            let ps = doc_positions(ix, d, w);
            ps.len() > 0
        },
        QueryNode::Phrase(ws) => phrase_match(ix, d, ws),
    }
}

/// A document matches a variant when it matches every node; the empty
/// variant matches no document.
pub open spec fn spec_graph_match(ix: Index, g: Seq<SpecNode>, d: int) -> bool {
    g.len() > 0 && forall|i: int| 0 <= i < g.len() ==> spec_node_match(ix, #[trigger] g[i], d)
}

pub fn graph_match(ix: &Index, d: u32, g: &Vec<QueryNode>) -> (r: bool)
    ensures
        r == spec_graph_match(*ix, crate::query::node_views(g@), d as int),
{
    let ghost gv = crate::query::node_views(g@);
    let n = g.len();
    if n == 0 {
        return false;
    }
    let mut i: usize = 0;
    while i < n
        invariant
            n == g@.len(),
            gv == crate::query::node_views(g@),
            i <= n,
            forall|j: int| 0 <= j < i ==> spec_node_match(*ix, #[trigger] gv[j], d as int),
        decreases n - i,
    {
        proof {
            assert(gv[i as int] == g@[i as int].view());
        }
        if !node_match(ix, d, &g[i]) {
            return false;
        }
        i = i + 1;
    }
    true
}

// --- proximity cost ---

/// The word of a node facing its right neighbour: a term itself, a phrase's
/// last word.
pub open spec fn spec_right_anchor(n: SpecNode) -> Seq<char> {
    match n {
        SpecNode::Term(w) => w,
        SpecNode::Phrase(ws) => if ws.len() > 0 {
            ws.last()
        } else {
            Seq::empty()
        },
    }
}

/// The word of a node facing its left neighbour: a term itself, a phrase's
/// first word.
pub open spec fn spec_left_anchor(n: SpecNode) -> Seq<char> {
    match n {
        SpecNode::Term(w) => w,
        SpecNode::Phrase(ws) => if ws.len() > 0 {
            ws.first()
        } else {
            Seq::empty()
        },
    }
}

pub fn right_anchor(n: &QueryNode) -> (r: Vec<char>)
    ensures
        r@ == spec_right_anchor(n.view()),
{
    match n {
        QueryNode::Term(w) => crate::query::clone_chars(w),
        QueryNode::Phrase(ws) => {
            if ws.len() > 0 {
                let r = crate::query::clone_chars(&ws[ws.len() - 1]);
                proof {
                    assert(crate::query::word_views(ws@).last() == ws@[ws@.len() - 1]@);
                }
                r
            } else {
                Vec::new()
            }
        },
    }
}

pub fn left_anchor(n: &QueryNode) -> (r: Vec<char>)
    ensures
        r@ == spec_left_anchor(n.view()),
{
    match n {
        QueryNode::Term(w) => crate::query::clone_chars(w),
        QueryNode::Phrase(ws) => {
            if ws.len() > 0 {
                let r = crate::query::clone_chars(&ws[0]);
                proof {
                    assert(crate::query::word_views(ws@).first() == ws@[0]@);
                }
                r
            } else {
                Vec::new()
            }
        },
    }
}

/// The proximity cost of a pair of adjacent nodes in a document: the minimum
/// token distance between the left node's right anchor and the right node's
/// left anchor.
pub open spec fn spec_pair_cost(ix: Index, x: SpecNode, y: SpecNode, d: int) -> u32 {
    spec_min_dist(ix.occ(spec_right_anchor(x), d), ix.occ(spec_left_anchor(y), d))
}

/// The proximity cost of a document for a variant: the sum of the pair
/// costs of adjacent nodes.
pub open spec fn spec_graph_cost(ix: Index, g: Seq<SpecNode>, d: int) -> int
    decreases g.len(),
{
    if g.len() <= 1 {
        0
    } else {
        spec_graph_cost(ix, g.drop_last(), d) + spec_pair_cost(
            ix,
            g[g.len() - 2],
            g.last(),
            d,
        )
    }
}

pub proof fn lemma_graph_cost_bound(ix: Index, g: Seq<SpecNode>, d: int)
    ensures
        0 <= spec_graph_cost(ix, g, d) <= 8 * g.len(),
    decreases g.len(),
{
    if g.len() > 1 {
        lemma_graph_cost_bound(ix, g.drop_last(), d);
        lemma_min_dist_bound(
            ix.occ(spec_right_anchor(g[g.len() - 2]), d),
            ix.occ(spec_left_anchor(g.last()), d),
        );
    }
}

/// The proximity cost of a document for a variant.
pub fn graph_cost(ix: &Index, d: u32, g: &Vec<QueryNode>) -> (r: u128)
    ensures
        r == spec_graph_cost(*ix, crate::query::node_views(g@), d as int),
{
    let ghost gv = crate::query::node_views(g@);
    let n = g.len();
    let mut cost: u128 = 0;
    if n == 0 {
        proof {
            assert(gv.take(0) =~= gv);
        }
        return 0;
    }
    let mut i: usize = 1;
    proof {
        assert(gv.take(1).len() == 1);
    }
    while i < n
        invariant
            n == g@.len(),
            gv == crate::query::node_views(g@),
            1 <= i <= n,
            cost == spec_graph_cost(*ix, gv.take(i as int), d as int),
            cost <= 8 * i,
        decreases n - i,
    {
        proof {
            assert(gv.take(i + 1).drop_last() =~= gv.take(i as int));
            assert(gv.take(i + 1).last() == gv[i as int]);
            assert(gv.take(i + 1)[i - 1] == gv[i - 1]);
            assert(gv[i - 1] == g@[i - 1].view());
            assert(gv[i as int] == g@[i as int].view());
        }
        let ra = right_anchor(&g[i - 1]);
        let la = left_anchor(&g[i]);
        let pc = min_dist(ix, d, &ra, &la);
        cost = cost + (pc as u128);
        i = i + 1;
    }
    proof {
        assert(gv.take(n as int) =~= gv);
    }
    cost
}

} // verus!
