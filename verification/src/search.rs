use vstd::prelude::*;
use vstd::string::*;
use crate::index::{Criterion, Index};
use crate::indexer::Error;
use crate::matching::{
    graph_cost, graph_match, spec_graph_cost, spec_graph_match,
};
use crate::query::{node_views, parse, spec_parse, QueryNode, SpecNode};
use crate::reduce::{reduce, spec_variants, TermsMatchingStrategy};
use crate::store::ReadTxn;

verus! {

// The search executor: parse the query, produce the strategy's variants,
// and rank documents.  When the `Words` criterion is active, documents are
// bucketed by the first (strictest) variant they fully match; within a
// bucket the `Proximity` criterion orders documents by rising proximity
// cost, and ascending document identifier breaks every remaining tie.  The
// result is a pure function of the snapshot, the query, the strategy and
// the limit, so repeated execution yields identical output.

pub open spec fn spec_has_criterion(cs: Seq<Criterion>, c: Criterion) -> bool {
    exists|i: int| 0 <= i < cs.len() && cs[i] == c
}

/// Document `d` falls in bucket `k`: it matches variant `k` and no stricter
/// variant before it.
pub open spec fn spec_doc_in_bucket(
    ix: Index,
    variants: Seq<Seq<SpecNode>>,
    k: int,
    d: int,
) -> bool {
    spec_graph_match(ix, variants[k], d) && forall|j: int|
        0 <= j < k ==> !spec_graph_match(ix, #[trigger] variants[j], d)
}

/// The identifiers below `n` that fall in bucket `k`, ascending.
pub open spec fn spec_bucket_upto(
    ix: Index,
    variants: Seq<Seq<SpecNode>>,
    k: int,
    n: int,
) -> Seq<u32>
    decreases n,
{
    if n <= 0 {
        Seq::empty()
    } else {
        spec_bucket_upto(ix, variants, k, n - 1) + if spec_doc_in_bucket(ix, variants, k, n - 1) {
            seq![(n - 1) as u32]
        } else {
            Seq::<u32>::empty()
        }
    }
}

/// The members of `b` whose proximity cost for `g` is exactly `c`, in order.
pub open spec fn spec_cost_filter(ix: Index, g: Seq<SpecNode>, b: Seq<u32>, c: int) -> Seq<u32>
    decreases b.len(),
{
    if b.len() == 0 {
        Seq::empty()
    } else {
        spec_cost_filter(ix, g, b.drop_last(), c) + if spec_graph_cost(
            ix,
            g,
            b.last() as int,
        ) == c {
            seq![b.last()]
        } else {
            Seq::<u32>::empty()
        }
    }
}

/// The members of `b` ordered by rising proximity cost, costs below `cmax`.
pub open spec fn spec_cost_sweep(ix: Index, g: Seq<SpecNode>, b: Seq<u32>, cmax: int) -> Seq<u32>
    decreases cmax,
{
    if cmax <= 0 {
        Seq::empty()
    } else {
        spec_cost_sweep(ix, g, b, cmax - 1) + spec_cost_filter(ix, g, b, cmax - 1)
    }
}

/// A bucket in its final order: by proximity cost when that criterion is
/// active, by ascending identifier otherwise.
pub open spec fn spec_bucket_order(ix: Index, g: Seq<SpecNode>, b: Seq<u32>, prox: bool) -> Seq<
    u32,
> {
    if prox {
        spec_cost_sweep(ix, g, b, 8 * (g.len() as int) + 1)
    } else {
        b
    }
}

/// The concatenation of the first `k` buckets, each in its final order.
pub open spec fn spec_buckets_prefix(
    ix: Index,
    variants: Seq<Seq<SpecNode>>,
    prox: bool,
    n: int,
    k: int,
) -> Seq<u32>
    decreases k,
{
    if k <= 0 {
        Seq::empty()
    } else {
        spec_buckets_prefix(ix, variants, prox, n, k - 1) + spec_bucket_order(
            ix,
            variants[k - 1],
            spec_bucket_upto(ix, variants, k - 1, n),
            prox,
        )
    }
}

/// The identifiers below `n` matching variant `k`, ascending.
pub open spec fn spec_matches_upto(
    ix: Index,
    g: Seq<SpecNode>,
    n: int,
) -> Seq<u32>
    decreases n,
{
    if n <= 0 {
        Seq::empty()
    } else {
        spec_matches_upto(ix, g, n - 1) + if spec_graph_match(ix, g, n - 1) {
            seq![(n - 1) as u32]
        } else {
            Seq::<u32>::empty()
        }
    }
}

/// The first variant with any matching document, or the variant count.
pub open spec fn spec_first_nonempty(
    ix: Index,
    variants: Seq<Seq<SpecNode>>,
    n: int,
    k: int,
) -> int
    decreases variants.len() - k,
{
    if k >= variants.len() {
        k
    } else if spec_matches_upto(ix, variants[k], n).len() > 0 {
        k
    } else {
        spec_first_nonempty(ix, variants, n, k + 1)
    }
}

/// The live identifiers below `n`, ascending.
pub open spec fn spec_live_upto(ix: Index, n: int) -> Seq<u32>
    decreases n,
{
    if n <= 0 {
        Seq::empty()
    } else {
        spec_live_upto(ix, n - 1) + if ix.live(n - 1) {
            seq![(n - 1) as u32]
        } else {
            Seq::<u32>::empty()
        }
    }
}

/// The full ranked identifier sequence of a query, before the limit.
pub open spec fn spec_ranked(
    ix: Index,
    q: Seq<char>,
    st: TermsMatchingStrategy,
) -> Seq<u32> {
    let g = spec_parse(q);
    let variants = spec_variants(g, st);
    let n = ix.view_docs().len() as int;
    let cs = crate::index::settings_view(ix.settings).criteria;
    let prox = spec_has_criterion(cs, Criterion::Proximity);
    if spec_has_criterion(cs, Criterion::Words) {
        spec_buckets_prefix(ix, variants, prox, n, variants.len() as int)
    } else {
        let k = spec_first_nonempty(ix, variants, n, 0);
        if k < variants.len() {
            spec_bucket_order(ix, variants[k], spec_matches_upto(ix, variants[k], n), prox)
        } else {
            Seq::empty()
        }
    }
}

/// What a search returns: the ranked identifiers, cut at the limit.  With
/// no query the placeholder result is every live document, ascending.
pub open spec fn spec_search_ids(
    ix: Index,
    q: Option<Seq<char>>,
    st: TermsMatchingStrategy,
    limit: int,
) -> Seq<u32> {
    let full = match q {
        Option::None => spec_live_upto(ix, ix.view_docs().len() as int),
        Option::Some(text) => spec_ranked(ix, text, st),
    };
    if limit < full.len() {
        full.take(limit)
    } else {
        full
    }
}

/// Whether a criterion is active in the settings list.
fn has_criterion(cs: &Vec<Criterion>, c: Criterion) -> (r: bool)
    ensures
        r == spec_has_criterion(cs@, c),
{
    let mut i: usize = 0;
    while i < cs.len()
        invariant
            i <= cs@.len(),
            forall|j: int| 0 <= j < i ==> cs@[j] != c,
        decreases cs@.len() - i,
    {
        if cs[i] == c {
            return true;
        }
        i = i + 1;
    }
    false
}

/// Document `d` falls in bucket `k` of the variant sequence.
fn in_bucket(ix: &Index, variants: &Vec<Vec<QueryNode>>, k: usize, d: u32) -> (r: bool)
    requires
        k < variants@.len(),
    ensures
        r == spec_doc_in_bucket(
            *ix,
            variants@.map_values(|v: Vec<QueryNode>| node_views(v@)),
            k as int,
            d as int,
        ),
{
    let ghost vv = variants@.map_values(|v: Vec<QueryNode>| node_views(v@));
    if !graph_match(ix, d, &variants[k]) {
        proof {
            assert(vv[k as int] == node_views(variants@[k as int]@));
        }
        return false;
    }
    let mut j: usize = 0;
    while j < k
        invariant
            k < variants@.len(),
            vv == variants@.map_values(|v: Vec<QueryNode>| node_views(v@)),
            j <= k,
            forall|m: int| 0 <= m < j ==> !spec_graph_match(*ix, #[trigger] vv[m], d as int),
        decreases k - j,
    {
        proof {
            assert(vv[j as int] == node_views(variants@[j as int]@));
        }
        if graph_match(ix, d, &variants[j]) {
            return false;
        }
        j = j + 1;
    }
    proof {
        assert(vv[k as int] == node_views(variants@[k as int]@));
    }
    true
}

/// Collect bucket `k`: ascending identifiers of the documents whose first
/// matching variant is `k`.
fn collect_bucket(ix: &Index, variants: &Vec<Vec<QueryNode>>, k: usize) -> (r: Vec<u32>)
    requires
        ix.wf(),
        k < variants@.len(),
    ensures
        r@ == spec_bucket_upto(
            *ix,
            variants@.map_values(|v: Vec<QueryNode>| node_views(v@)),
            k as int,
            ix.view_docs().len() as int,
        ),
{
    let ghost vv = variants@.map_values(|v: Vec<QueryNode>| node_views(v@));
    let n = ix.docs.len();
    let mut out: Vec<u32> = Vec::new();
    let mut d: usize = 0;
    proof {
        assert(out@ =~= spec_bucket_upto(*ix, vv, k as int, 0));
        assert(ix.view_docs().len() == ix.docs@.len());
    }
    while d < n
        invariant
            ix.wf(),
            n == ix.docs@.len(),
            n <= u32::MAX,
            k < variants@.len(),
            vv == variants@.map_values(|v: Vec<QueryNode>| node_views(v@)),
            d <= n,
            out@ == spec_bucket_upto(*ix, vv, k as int, d as int),
        decreases n - d,
    {
        if in_bucket(ix, variants, k, d as u32) {
            out.push(d as u32);
            proof {
                assert(out@ =~= spec_bucket_upto(*ix, vv, k as int, d + 1));
            }
        } else {
            proof {
                assert(out@ =~= spec_bucket_upto(*ix, vv, k as int, d + 1));
            }
        }
        d = d + 1;
    }
    proof {
        assert(ix.view_docs().len() == ix.docs@.len());
    }
    out
}

/// Order a bucket by rising proximity cost for the variant `g`, identifiers
/// ascending within one cost.
fn order_by_cost(ix: &Index, g: &Vec<QueryNode>, b: &Vec<u32>) -> (r: Vec<u32>)
    ensures
        r@ == spec_cost_sweep(
            *ix,
            node_views(g@),
            b@,
            8 * (node_views(g@).len() as int) + 1,
        ),
{
    let ghost gv = node_views(g@);
    let cmax: u128 = 8 * (g.len() as u128) + 1;
    let mut out: Vec<u32> = Vec::new();
    let mut c: u128 = 0;
    proof {
        assert(out@ =~= spec_cost_sweep(*ix, gv, b@, 0));
    }
    while c < cmax
        invariant
            gv == node_views(g@),
            cmax == 8 * gv.len() + 1,
            c <= cmax,
            out@ == spec_cost_sweep(*ix, gv, b@, c as int),
        decreases cmax - c,
    {
        let mut i: usize = 0;
        let ghost pre = out@;
        proof {
            assert(b@.take(0) =~= Seq::<u32>::empty());
            assert(out@ =~= pre + spec_cost_filter(*ix, gv, b@.take(0), c as int));
        }
        while i < b.len()
            invariant
                gv == node_views(g@),
                i <= b@.len(),
                out@ == pre + spec_cost_filter(*ix, gv, b@.take(i as int), c as int),
            decreases b@.len() - i,
        {
            proof {
                assert(b@.take(i + 1).drop_last() =~= b@.take(i as int));
                assert(b@.take(i + 1).last() == b@[i as int]);
            }
            let cost = graph_cost(ix, b[i], g);
            if cost == c {
                out.push(b[i]);
                proof {
                    assert(out@ =~= pre + spec_cost_filter(*ix, gv, b@.take(i + 1), c as int));
                }
            } else {
                proof {
                    assert(out@ =~= pre + spec_cost_filter(*ix, gv, b@.take(i + 1), c as int));
                }
            }
            i = i + 1;
        }
        proof {
            assert(b@.take(b@.len() as int) =~= b@);
            assert(out@ == spec_cost_sweep(*ix, gv, b@, c + 1));
        }
        c = c + 1;
    }
    out
}

/// The identifiers below the document count matching `g`, ascending.
fn collect_matches(ix: &Index, g: &Vec<QueryNode>) -> (r: Vec<u32>)
    requires
        ix.wf(),
    ensures
        r@ == spec_matches_upto(*ix, node_views(g@), ix.view_docs().len() as int),
{
    let ghost gv = node_views(g@);
    let n = ix.docs.len();
    let mut out: Vec<u32> = Vec::new();
    let mut d: usize = 0;
    proof {
        assert(out@ =~= spec_matches_upto(*ix, gv, 0));
        assert(ix.view_docs().len() == ix.docs@.len());
    }
    while d < n
        invariant
            ix.wf(),
            n == ix.docs@.len(),
            n <= u32::MAX,
            gv == node_views(g@),
            d <= n,
            out@ == spec_matches_upto(*ix, gv, d as int),
        decreases n - d,
    {
        if graph_match(ix, d as u32, g) {
            out.push(d as u32);
            proof {
                assert(out@ =~= spec_matches_upto(*ix, gv, d + 1));
            }
        } else {
            proof {
                assert(out@ =~= spec_matches_upto(*ix, gv, d + 1));
            }
        }
        d = d + 1;
    }
    proof {
        assert(ix.view_docs().len() == ix.docs@.len());
    }
    out
}

/// The result of a search: the ranked document identifiers.
pub struct SearchResult {
    pub documents_ids: Vec<u32>,
}

/// A fluent search request over one read snapshot.
pub struct Search<'a> {
    pub txn: &'a ReadTxn,
    pub query_text: Option<String>,
    pub strategy: TermsMatchingStrategy,
    pub limit: usize,
}

impl<'a> Search<'a> {
    pub open spec fn query_view(self) -> Option<Seq<char>> {
        match self.query_text {
            Option::None => Option::None,
            Option::Some(s) => Option::Some(s@),
        }
    }

    /// A search over the snapshot with no query, the `Last` strategy and the
    /// default limit of twenty documents.
    pub fn new(txn: &'a ReadTxn) -> (r: Self)
        ensures
            r.txn == txn,
            r.query_view() is None,
            r.strategy == TermsMatchingStrategy::Last,
            r.limit == 20usize,
    {
        Search { txn, query_text: None, strategy: TermsMatchingStrategy::Last, limit: 20 }
    }

    pub fn query(&mut self, text: &str)
        ensures
            final(self).query_view() == Option::Some(text@),
            final(self).txn == old(self).txn,
            final(self).strategy == old(self).strategy,
            final(self).limit == old(self).limit,
    {
        self.query_text = Some(text.to_owned());
    }

    pub fn terms_matching_strategy(&mut self, st: TermsMatchingStrategy)
        ensures
            final(self).strategy == st,
            final(self).txn == old(self).txn,
            final(self).query_view() == old(self).query_view(),
            final(self).limit == old(self).limit,
    {
        self.strategy = st;
    }

    pub fn limit(&mut self, limit: usize)
        ensures
            final(self).limit == limit,
            final(self).txn == old(self).txn,
            final(self).query_view() == old(self).query_view(),
            final(self).strategy == old(self).strategy,
    {
        self.limit = limit;
    }

    /// Run the search against the snapshot.  An empty result is a normal
    /// outcome, never an error.
    pub fn execute(&self) -> (r: Result<SearchResult, Error>)
        requires
            self.txn.index.wf(),
        ensures
            r is Ok,
            match r {
                Result::Ok(res) => res.documents_ids@ == spec_search_ids(
                    self.txn.index,
                    self.query_view(),
                    self.strategy,
                    self.limit as int,
                ),
                Result::Err(_) => false,
            },
    {
        let out = run_query(&self.txn.index, &self.query_text, self.strategy, self.limit);
        Ok(SearchResult { documents_ids: out })
    }
}

/// The search executor over one index: parse, reduce, bucket, rank, cut.
/// The result is the spec's ranked identifier sequence for the given query,
/// strategy and limit.
pub fn run_query(
    ix: &Index,
    query_text: &Option<String>,
    strategy: TermsMatchingStrategy,
    limit: usize,
) -> (r: Vec<u32>)
    requires
        ix.wf(),
    ensures
        r@ == spec_search_ids(
            *ix,
            match query_text {
                Option::None => Option::None,
                Option::Some(s) => Option::Some(s@),
            },
            strategy,
            limit as int,
        ),
{
        let mut out: Vec<u32>;
        match query_text {
            Option::None => {
                let n = ix.docs.len();
                let mut acc: Vec<u32> = Vec::new();
                let mut d: usize = 0;
                proof {
                    assert(acc@ =~= spec_live_upto(*ix, 0));
                    assert(ix.view_docs().len() == ix.docs@.len());
                }
                while d < n
                    invariant
                        ix.wf(),
                                                n == ix.docs@.len(),
                        n <= u32::MAX,
                        d <= n,
                        acc@ == spec_live_upto(*ix, d as int),
                    decreases n - d,
                {
                    let live = match &ix.docs[d] {
                        Option::Some(_) => true,
                        Option::None => false,
                    };
                    if live {
                        acc.push(d as u32);
                        proof {
                            assert(acc@ =~= spec_live_upto(*ix, d + 1));
                        }
                    } else {
                        proof {
                            assert(acc@ =~= spec_live_upto(*ix, d + 1));
                        }
                    }
                    d = d + 1;
                }
                proof {
                    assert(ix.view_docs().len() == ix.docs@.len());
                }
                out = acc;
            },
            Option::Some(q) => {
                let graph = parse(q.as_str());
                let variants = reduce(&graph, strategy);
                let ghost vv = variants@.map_values(|v: Vec<QueryNode>| node_views(v@));
                proof {
                    assert(vv == spec_variants(spec_parse(q@), strategy));
                }
                let words_on = has_criterion(&ix.settings.criteria, Criterion::Words);
                let prox_on = has_criterion(&ix.settings.criteria, Criterion::Proximity);
                let ghost n_ghost = ix.view_docs().len() as int;
                if words_on {
                    let mut acc: Vec<u32> = Vec::new();
                    let mut k: usize = 0;
                    proof {
                        assert(acc@ =~= spec_buckets_prefix(*ix, vv, prox_on, n_ghost, 0));
                    }
                    while k < variants.len()
                        invariant
                            ix.wf(),
                                                        n_ghost == ix.view_docs().len() as int,
                            vv == variants@.map_values(|v: Vec<QueryNode>| node_views(v@)),
                            k <= variants@.len(),
                            acc@ == spec_buckets_prefix(*ix, vv, prox_on, n_ghost, k as int),
                        decreases variants@.len() - k,
                    {
                        let bucket = collect_bucket(ix, &variants, k);
                        let ghost pre = acc@;
                        if prox_on {
                            let ordered = order_by_cost(ix, &variants[k], &bucket);
                            let mut t: usize = 0;
                            while t < ordered.len()
                                invariant
                                    t <= ordered@.len(),
                                    acc@ == pre + ordered@.take(t as int),
                                decreases ordered@.len() - t,
                            {
                                acc.push(ordered[t]);
                                proof {
                                    assert(acc@ =~= pre + ordered@.take(t + 1));
                                }
                                t = t + 1;
                            }
                            proof {
                                assert(ordered@.take(ordered@.len() as int) =~= ordered@);
                                assert(vv[k as int] == node_views(variants@[k as int]@));
                                assert(acc@ == spec_buckets_prefix(
                                    *ix, vv, prox_on, n_ghost, k + 1));
                            }
                        } else {
                            let mut t: usize = 0;
                            while t < bucket.len()
                                invariant
                                    t <= bucket@.len(),
                                    acc@ == pre + bucket@.take(t as int),
                                decreases bucket@.len() - t,
                            {
                                acc.push(bucket[t]);
                                proof {
                                    assert(acc@ =~= pre + bucket@.take(t + 1));
                                }
                                t = t + 1;
                            }
                            proof {
                                assert(bucket@.take(bucket@.len() as int) =~= bucket@);
                                assert(vv[k as int] == node_views(variants@[k as int]@));
                                assert(acc@ == spec_buckets_prefix(
                                    *ix, vv, prox_on, n_ghost, k + 1));
                            }
                        }
                        k = k + 1;
                    }
                    out = acc;
                } else {
                    let mut k: usize = 0;
                    let mut found: Option<Vec<u32>> = None;
                    while k < variants.len() && found.is_none()
                        invariant
                            ix.wf(),
                                                        n_ghost == ix.view_docs().len() as int,
                            vv == variants@.map_values(|v: Vec<QueryNode>| node_views(v@)),
                            k <= variants@.len(),
                            match found {
                                Option::None => spec_first_nonempty(*ix, vv, n_ghost, 0)
                                    == spec_first_nonempty(*ix, vv, n_ghost, k as int),
                                Option::Some(c) => k < variants@.len() && spec_first_nonempty(
                                    *ix,
                                    vv,
                                    n_ghost,
                                    0,
                                ) == k as int && c@ == spec_matches_upto(
                                    *ix,
                                    vv[k as int],
                                    n_ghost,
                                ) && c@.len() > 0,
                            },
                        decreases variants@.len() - k + if found is None {
                            1int
                        } else {
                            0int
                        },
                    {
                        proof {
                            assert(vv[k as int] == node_views(variants@[k as int]@));
                        }
                        let cands = collect_matches(ix, &variants[k]);
                        if cands.len() > 0 {
                            found = Some(cands);
                        } else {
                            k = k + 1;
                        }
                    }
                    match found {
                        Option::Some(cands) => {
                            proof {
                                assert(spec_first_nonempty(*ix, vv, n_ghost, 0) == k as int);
                                assert(vv[k as int] == node_views(variants@[k as int]@));
                            }
                            if prox_on {
                                out = order_by_cost(ix, &variants[k], &cands);
                            } else {
                                out = cands;
                            }
                        },
                        Option::None => {
                            proof {
                                assert(spec_first_nonempty(*ix, vv, n_ghost, 0) == vv.len());
                            }
                            out = Vec::new();
                            proof {
                                assert(out@ =~= Seq::<u32>::empty());
                            }
                        },
                    }
                }
            },
        }
        if out.len() > limit {
            out.truncate(limit);
        }
        out
    }


// --- soundness of the ranked output ---

/// No duplicates in a sequence of identifiers.
pub open spec fn ids_distinct(s: Seq<u32>) -> bool {
    forall|i: int, j: int| #![trigger s[i], s[j]] 0 <= i < j < s.len() ==> s[i] != s[j]
}

proof fn push_index_facts(s: Seq<u32>, x: u32, i: int)
    requires
        0 <= i <= s.len(),
    ensures
        s.push(x)[i] == (if i < s.len() {
            s[i]
        } else {
            x
        }),
{
}

proof fn take_index_facts(a: Seq<u32>, l: int, i: int)
    requires
        0 <= i < l <= a.len(),
    ensures
        a.take(l)[i] == a[i],
{
}

/// Document `d` lies in one of the first `k` buckets.
pub open spec fn spec_in_some_bucket(
    ix: Index,
    variants: Seq<Seq<SpecNode>>,
    k: int,
    d: int,
) -> bool {
    exists|j: int| 0 <= j < k && spec_doc_in_bucket(ix, variants, j, d)
}

proof fn add_index_facts(a: Seq<u32>, b: Seq<u32>, i: int)
    requires
        0 <= i < a.len() + b.len(),
    ensures
        (a + b)[i] == (if i < a.len() {
            a[i]
        } else {
            b[i - a.len()]
        }),
{
}

/// Every identifier of bucket `k` is below `n` and lies in the bucket; the
/// sequence is strictly ascending.
proof fn lemma_bucket_upto_props(ix: Index, variants: Seq<Seq<SpecNode>>, k: int, n: int)
    requires
        0 <= n <= u32::MAX,
    ensures
        forall|m: int|
            0 <= m < spec_bucket_upto(ix, variants, k, n).len()
                ==> (#[trigger] spec_bucket_upto(ix, variants, k, n)[m]) < n
                && spec_doc_in_bucket(ix, variants, k, spec_bucket_upto(ix, variants, k, n)[m] as int),
        forall|i: int, j: int|
            #![trigger spec_bucket_upto(ix, variants, k, n)[i], spec_bucket_upto(ix, variants, k, n)[j]]
            0 <= i < j < spec_bucket_upto(ix, variants, k, n).len()
                ==> spec_bucket_upto(ix, variants, k, n)[i] < spec_bucket_upto(ix, variants, k, n)[j],
    decreases n,
{
    if n > 0 {
        lemma_bucket_upto_props(ix, variants, k, n - 1);
        let s = spec_bucket_upto(ix, variants, k, n);
        let sp = spec_bucket_upto(ix, variants, k, n - 1);
        if !spec_doc_in_bucket(ix, variants, k, n - 1) {
            assert(s =~= sp);
        } else {
            assert(s =~= sp.push((n - 1) as u32));
            assert forall|m: int|
                0 <= m < s.len() implies (#[trigger] s[m]) < n && spec_doc_in_bucket(
                ix,
                variants,
                k,
                s[m] as int,
            ) by {
                push_index_facts(sp, (n - 1) as u32, m);
            };
            assert forall|i: int, j: int|
                #![trigger s[i], s[j]]
                0 <= i < j < s.len() implies s[i] < s[j] by {
                push_index_facts(sp, (n - 1) as u32, i);
                push_index_facts(sp, (n - 1) as u32, j);
            };
        }
    }
}

/// A matching document is live: every node of a non-empty variant demands an
/// occurrence, and only live documents have occurrences.
pub proof fn lemma_match_live(ix: Index, g: Seq<SpecNode>, d: int)
    requires
        spec_graph_match(ix, g, d),
    ensures
        ix.live(d),
{
    assert(crate::matching::spec_node_match(ix, g[0], d));
    match g[0] {
        SpecNode::Term(w) => {
            assert(ix.occ(w, d).len() > 0);
        },
        SpecNode::Phrase(ws) => {
            assert(crate::matching::spec_phrase_match(ix, ws, d));
            if ws.len() == 1 {
                assert(ix.occ(ws[0], d).len() > 0);
            } else {
                assert(crate::matching::spec_pair_within(ix, ws[0], ws[1], d, 1u32));
                assert(ix.occ(ws[0], d).len() > 0);
            }
        },
    }
    if !ix.live(d) {
        assert(false);
    }
}

/// Members of a cost filter: from `b`, with exactly cost `c`, and strictly
/// ascending when `b` is.
proof fn lemma_cost_filter_props(ix: Index, g: Seq<SpecNode>, b: Seq<u32>, c: int)
    requires
        forall|i: int, j: int| #![trigger b[i], b[j]] 0 <= i < j < b.len() ==> b[i] < b[j],
    ensures
        forall|m: int|
            0 <= m < spec_cost_filter(ix, g, b, c).len() ==> b.contains(
                #[trigger] spec_cost_filter(ix, g, b, c)[m],
            ) && spec_graph_cost(ix, g, spec_cost_filter(ix, g, b, c)[m] as int) == c,
        forall|i: int, j: int|
            #![trigger spec_cost_filter(ix, g, b, c)[i], spec_cost_filter(ix, g, b, c)[j]]
            0 <= i < j < spec_cost_filter(ix, g, b, c).len() ==> spec_cost_filter(
                ix,
                g,
                b,
                c,
            )[i] < spec_cost_filter(ix, g, b, c)[j],
    decreases b.len(),
{
    if b.len() > 0 {
        let bp = b.drop_last();
        assert(forall|i: int, j: int|
            #![trigger bp[i], bp[j]]
            0 <= i < j < bp.len() ==> bp[i] < bp[j]);
        lemma_cost_filter_props(ix, g, bp, c);
        let f = spec_cost_filter(ix, g, b, c);
        let fp = spec_cost_filter(ix, g, bp, c);
        if spec_graph_cost(ix, g, b.last() as int) != c {
            assert(f =~= fp);
            assert forall|m: int|
                0 <= m < f.len() implies b.contains(#[trigger] f[m]) && spec_graph_cost(
                ix,
                g,
                f[m] as int,
            ) == c by {
                assert(bp.contains(fp[m]));
                let w = choose|w: int| 0 <= w < bp.len() && bp[w] == fp[m];
                assert(b[w] == f[m]);
            };
        } else {
            assert(f =~= fp.push(b.last()));
            assert forall|m: int|
                0 <= m < f.len() implies b.contains(#[trigger] f[m]) && spec_graph_cost(
                ix,
                g,
                f[m] as int,
            ) == c by {
                push_index_facts(fp, b.last(), m);
                if m < fp.len() {
                    assert(bp.contains(fp[m]));
                    let w = choose|w: int| 0 <= w < bp.len() && bp[w] == fp[m];
                    assert(b[w] == f[m]);
                } else {
                    assert(b[b.len() - 1] == f[m]);
                }
            };
            assert forall|i: int, j: int|
                #![trigger f[i], f[j]]
                0 <= i < j < f.len() implies f[i] < f[j] by {
                push_index_facts(fp, b.last(), i);
                push_index_facts(fp, b.last(), j);
                if j >= fp.len() && i < fp.len() {
                    assert(bp.contains(fp[i]));
                    let w = choose|w: int| 0 <= w < bp.len() && bp[w] == fp[i];
                    assert(b[w] < b[b.len() - 1]);
                }
            };
        }
    }
}

/// Members of a cost sweep: distinct, from `b`, with cost below `cmax`.
proof fn lemma_cost_sweep_props(ix: Index, g: Seq<SpecNode>, b: Seq<u32>, cmax: int)
    requires
        forall|i: int, j: int| #![trigger b[i], b[j]] 0 <= i < j < b.len() ==> b[i] < b[j],
    ensures
        forall|m: int|
            0 <= m < spec_cost_sweep(ix, g, b, cmax).len() ==> b.contains(
                #[trigger] spec_cost_sweep(ix, g, b, cmax)[m],
            ) && spec_graph_cost(ix, g, spec_cost_sweep(ix, g, b, cmax)[m] as int) < cmax,
        ids_distinct(spec_cost_sweep(ix, g, b, cmax)),
    decreases cmax,
{
    if cmax > 0 {
        lemma_cost_sweep_props(ix, g, b, cmax - 1);
        lemma_cost_filter_props(ix, g, b, cmax - 1);
        let s = spec_cost_sweep(ix, g, b, cmax);
        let sp = spec_cost_sweep(ix, g, b, cmax - 1);
        let f = spec_cost_filter(ix, g, b, cmax - 1);
        assert(s =~= sp + f);
        assert forall|m: int|
            0 <= m < s.len() implies b.contains(#[trigger] s[m]) && spec_graph_cost(
            ix,
            g,
            s[m] as int,
        ) < cmax by {
            add_index_facts(sp, f, m);
        };
        assert forall|i: int, j: int|
            #![trigger s[i], s[j]]
            0 <= i < j < s.len() implies s[i] != s[j] by {
            add_index_facts(sp, f, i);
            add_index_facts(sp, f, j);
            if i < sp.len() && j >= sp.len() {
                assert(spec_graph_cost(ix, g, sp[i] as int) < cmax - 1);
                assert(spec_graph_cost(ix, g, f[j - sp.len()] as int) == cmax - 1);
            }
        };
    }
}

/// Members of an ordered bucket: distinct, and each lies in bucket `k`.
proof fn lemma_bucket_order_props(
    ix: Index,
    variants: Seq<Seq<SpecNode>>,
    k: int,
    n: int,
    prox: bool,
)
    requires
        0 <= n <= u32::MAX,
    ensures
        ids_distinct(
            spec_bucket_order(ix, variants[k], spec_bucket_upto(ix, variants, k, n), prox),
        ),
        forall|m: int|
            0 <= m < spec_bucket_order(
                ix,
                variants[k],
                spec_bucket_upto(ix, variants, k, n),
                prox,
            ).len() ==> spec_doc_in_bucket(
                ix,
                variants,
                k,
                (#[trigger] spec_bucket_order(
                    ix,
                    variants[k],
                    spec_bucket_upto(ix, variants, k, n),
                    prox,
                )[m]) as int,
            ),
{
    let b = spec_bucket_upto(ix, variants, k, n);
    lemma_bucket_upto_props(ix, variants, k, n);
    if prox {
        let g = variants[k];
        lemma_cost_sweep_props(ix, g, b, 8 * (g.len() as int) + 1);
        let s = spec_bucket_order(ix, g, b, prox);
        assert forall|m: int| 0 <= m < s.len() implies spec_doc_in_bucket(
            ix,
            variants,
            k,
            (#[trigger] s[m]) as int,
        ) by {
            assert(b.contains(s[m]));
            let w = choose|w: int| 0 <= w < b.len() && b[w] == s[m];
            assert(spec_doc_in_bucket(ix, variants, k, b[w] as int));
        };
    }
}

/// The concatenated bucket prefix holds distinct identifiers, each from one
/// of its buckets.
proof fn lemma_buckets_prefix_props(
    ix: Index,
    variants: Seq<Seq<SpecNode>>,
    prox: bool,
    n: int,
    k: int,
)
    requires
        0 <= n <= u32::MAX,
    ensures
        ids_distinct(spec_buckets_prefix(ix, variants, prox, n, k)),
        forall|m: int|
            0 <= m < spec_buckets_prefix(ix, variants, prox, n, k).len() ==> spec_in_some_bucket(
                ix,
                variants,
                k,
                (#[trigger] spec_buckets_prefix(ix, variants, prox, n, k)[m]) as int,
            ),
    decreases k,
{
    if k > 0 {
        lemma_buckets_prefix_props(ix, variants, prox, n, k - 1);
        lemma_bucket_order_props(ix, variants, k - 1, n, prox);
        let s = spec_buckets_prefix(ix, variants, prox, n, k);
        let sp = spec_buckets_prefix(ix, variants, prox, n, k - 1);
        let blk = spec_bucket_order(
            ix,
            variants[k - 1],
            spec_bucket_upto(ix, variants, k - 1, n),
            prox,
        );
        assert(s =~= sp + blk);
        assert forall|m: int| 0 <= m < s.len() implies spec_in_some_bucket(
            ix,
            variants,
            k,
            (#[trigger] s[m]) as int,
        ) by {
            add_index_facts(sp, blk, m);
            if m < sp.len() {
                assert(spec_in_some_bucket(ix, variants, k - 1, sp[m] as int));
                let j0 = choose|j0: int|
                    0 <= j0 < k - 1 && spec_doc_in_bucket(ix, variants, j0, sp[m] as int);
                assert(spec_doc_in_bucket(ix, variants, j0, s[m] as int));
            } else {
                assert(spec_doc_in_bucket(ix, variants, k - 1, s[m] as int));
            }
        };
        assert forall|i: int, j: int|
            #![trigger s[i], s[j]]
            0 <= i < j < s.len() implies s[i] != s[j] by {
            add_index_facts(sp, blk, i);
            add_index_facts(sp, blk, j);
            if i < sp.len() && j >= sp.len() {
                assert(spec_in_some_bucket(ix, variants, k - 1, sp[i] as int));
                let j0 = choose|j0: int|
                    0 <= j0 < k - 1 && spec_doc_in_bucket(ix, variants, j0, sp[i] as int);
                assert(spec_doc_in_bucket(ix, variants, k - 1, blk[j - sp.len()] as int));
                if s[i] == s[j] {
                    assert(spec_graph_match(ix, variants[j0], s[j] as int));
                    assert(!spec_graph_match(ix, variants[j0], s[j] as int));
                }
            }
        };
    }
}

/// The matching identifiers below `n`: each matches, strictly ascending.
proof fn lemma_matches_upto_props(ix: Index, g: Seq<SpecNode>, n: int)
    requires
        0 <= n <= u32::MAX,
    ensures
        forall|m: int|
            0 <= m < spec_matches_upto(ix, g, n).len() ==> spec_graph_match(
                ix,
                g,
                (#[trigger] spec_matches_upto(ix, g, n)[m]) as int,
            ),
        forall|i: int, j: int|
            #![trigger spec_matches_upto(ix, g, n)[i], spec_matches_upto(ix, g, n)[j]]
            0 <= i < j < spec_matches_upto(ix, g, n).len() ==> spec_matches_upto(ix, g, n)[i]
                < spec_matches_upto(ix, g, n)[j],
    decreases n,
{
    if n > 0 {
        lemma_matches_upto_props(ix, g, n - 1);
        let s = spec_matches_upto(ix, g, n);
        let sp = spec_matches_upto(ix, g, n - 1);
        if !spec_graph_match(ix, g, n - 1) {
            assert(s =~= sp);
        } else {
            assert(s =~= sp.push((n - 1) as u32));
            assert forall|m: int|
                0 <= m < s.len() implies spec_graph_match(
                ix,
                g,
                (#[trigger] s[m]) as int,
            ) by {
                push_index_facts(sp, (n - 1) as u32, m);
            };
            assert forall|i: int, j: int|
                #![trigger s[i], s[j]]
                0 <= i < j < s.len() implies s[i] < s[j] by {
                push_index_facts(sp, (n - 1) as u32, i);
                push_index_facts(sp, (n - 1) as u32, j);
                if j >= sp.len() && i < sp.len() {
                    lemma_matches_upto_below(ix, g, n - 1, i);
                }
            };
        }
    }
}

/// Identifiers collected below `n` are below `n`.
proof fn lemma_matches_upto_below(ix: Index, g: Seq<SpecNode>, n: int, m: int)
    requires
        0 <= n <= u32::MAX,
        0 <= m < spec_matches_upto(ix, g, n).len(),
    ensures
        spec_matches_upto(ix, g, n)[m] < n,
    decreases n,
{
    if n > 0 {
        let s = spec_matches_upto(ix, g, n);
        let sp = spec_matches_upto(ix, g, n - 1);
        if !spec_graph_match(ix, g, n - 1) {
            assert(s =~= sp);
            lemma_matches_upto_below(ix, g, n - 1, m);
        } else {
            assert(s =~= sp.push((n - 1) as u32));
            push_index_facts(sp, (n - 1) as u32, m);
            if m < sp.len() {
                lemma_matches_upto_below(ix, g, n - 1, m);
            }
        }
    }
}

/// The live identifiers below `n`: each live, strictly ascending.
proof fn lemma_live_upto_props(ix: Index, n: int)
    requires
        0 <= n <= u32::MAX,
    ensures
        forall|m: int|
            0 <= m < spec_live_upto(ix, n).len() ==> ix.live(
                (#[trigger] spec_live_upto(ix, n)[m]) as int,
            ),
        forall|i: int, j: int|
            #![trigger spec_live_upto(ix, n)[i], spec_live_upto(ix, n)[j]]
            0 <= i < j < spec_live_upto(ix, n).len() ==> spec_live_upto(ix, n)[i] < spec_live_upto(
                ix,
                n,
            )[j],
    decreases n,
{
    if n > 0 {
        lemma_live_upto_props(ix, n - 1);
        let s = spec_live_upto(ix, n);
        let sp = spec_live_upto(ix, n - 1);
        if !ix.live(n - 1) {
            assert(s =~= sp);
        } else {
            assert(s =~= sp.push((n - 1) as u32));
            assert forall|m: int|
                0 <= m < s.len() implies ix.live((#[trigger] s[m]) as int) by {
                push_index_facts(sp, (n - 1) as u32, m);
            };
            assert forall|i: int, j: int|
                #![trigger s[i], s[j]]
                0 <= i < j < s.len() implies s[i] < s[j] by {
                push_index_facts(sp, (n - 1) as u32, i);
                push_index_facts(sp, (n - 1) as u32, j);
                if j >= sp.len() && i < sp.len() {
                    lemma_live_upto_below(ix, n - 1, i);
                }
            };
        }
    }
}

/// Live identifiers collected below `n` are below `n`.
proof fn lemma_live_upto_below(ix: Index, n: int, m: int)
    requires
        0 <= n <= u32::MAX,
        0 <= m < spec_live_upto(ix, n).len(),
    ensures
        spec_live_upto(ix, n)[m] < n,
    decreases n,
{
    if n > 0 {
        let s = spec_live_upto(ix, n);
        let sp = spec_live_upto(ix, n - 1);
        if !ix.live(n - 1) {
            assert(s =~= sp);
            lemma_live_upto_below(ix, n - 1, m);
        } else {
            assert(s =~= sp.push((n - 1) as u32));
            push_index_facts(sp, (n - 1) as u32, m);
            if m < sp.len() {
                lemma_live_upto_below(ix, n - 1, m);
            }
        }
    }
}

/// Soundness of search: whatever the snapshot, query, strategy and limit,
/// the result never holds a document identifier absent from the store, and
/// never holds the same identifier twice.
pub proof fn lemma_search_sound(
    ix: Index,
    q: Option<Seq<char>>,
    st: TermsMatchingStrategy,
    limit: int,
)
    requires
        ix.wf(),
        0 <= limit,
    ensures
        ids_distinct(spec_search_ids(ix, q, st, limit)),
        forall|m: int|
            0 <= m < spec_search_ids(ix, q, st, limit).len() ==> ix.live(
                (#[trigger] spec_search_ids(ix, q, st, limit)[m]) as int,
            ),
{
    let n = ix.view_docs().len() as int;
    let full = match q {
        Option::None => spec_live_upto(ix, n),
        Option::Some(text) => spec_ranked(ix, text, st),
    };
    assert(ids_distinct(full) && forall|m: int|
        0 <= m < full.len() ==> ix.live((#[trigger] full[m]) as int)) by {
        match q {
            Option::None => {
                lemma_live_upto_props(ix, n);
            },
            Option::Some(text) => {
                let g = spec_parse(text);
                let variants = spec_variants(g, st);
                let cs = crate::index::settings_view(ix.settings).criteria;
                let prox = spec_has_criterion(cs, Criterion::Proximity);
                if spec_has_criterion(cs, Criterion::Words) {
                    lemma_buckets_prefix_props(ix, variants, prox, n, variants.len() as int);
                    assert forall|m: int| 0 <= m < full.len() implies ix.live(
                        (#[trigger] full[m]) as int,
                    ) by {
                        assert(spec_in_some_bucket(
                            ix,
                            variants,
                            variants.len() as int,
                            full[m] as int,
                        ));
                        let j = choose|j: int|
                            0 <= j < variants.len() && spec_doc_in_bucket(
                                ix,
                                variants,
                                j,
                                full[m] as int,
                            );
                        lemma_match_live(ix, variants[j], full[m] as int);
                    };
                } else {
                    let k = spec_first_nonempty(ix, variants, n, 0);
                    if k < variants.len() {
                        lemma_matches_upto_props(ix, variants[k], n);
                        let b = spec_matches_upto(ix, variants[k], n);
                        if prox {
                            lemma_cost_sweep_props(
                                ix,
                                variants[k],
                                b,
                                8 * (variants[k].len() as int) + 1,
                            );
                            assert forall|m: int| 0 <= m < full.len() implies ix.live(
                                (#[trigger] full[m]) as int,
                            ) by {
                                assert(b.contains(full[m]));
                                let w = choose|w: int| 0 <= w < b.len() && b[w] == full[m];
                                lemma_match_live(ix, variants[k], b[w] as int);
                            };
                        } else {
                            assert forall|m: int| 0 <= m < full.len() implies ix.live(
                                (#[trigger] full[m]) as int,
                            ) by {
                                lemma_match_live(ix, variants[k], full[m] as int);
                            };
                        }
                    }
                }
            },
        }
    };
    let out = spec_search_ids(ix, q, st, limit);
    if limit < full.len() {
        assert(out =~= full.take(limit));
        assert forall|m: int| 0 <= m < out.len() implies ix.live(
            (#[trigger] out[m]) as int,
        ) by {
            take_index_facts(full, limit, m);
        };
        assert forall|i: int, j: int|
            #![trigger out[i], out[j]]
            0 <= i < j < out.len() implies out[i] != out[j] by {
            take_index_facts(full, limit, i);
            take_index_facts(full, limit, j);
        };
    }
}

/// Every member of `b` with cost `c` appears in the cost filter.
proof fn lemma_cost_filter_complete(ix: Index, g: Seq<SpecNode>, b: Seq<u32>, c: int, m: int)
    requires
        0 <= m < b.len(),
        spec_graph_cost(ix, g, b[m] as int) == c,
    ensures
        spec_cost_filter(ix, g, b, c).contains(b[m]),
    decreases b.len(),
{
    let f = spec_cost_filter(ix, g, b, c);
    let fp = spec_cost_filter(ix, g, b.drop_last(), c);
    if m == b.len() - 1 {
        assert(spec_graph_cost(ix, g, b.last() as int) == c);
        assert(f =~= fp.push(b.last()));
        assert(f[f.len() - 1] == b.last());
    } else {
        lemma_cost_filter_complete(ix, g, b.drop_last(), c, m);
        let w = choose|w: int| 0 <= w < fp.len() && fp[w] == b.drop_last()[m];
        if spec_graph_cost(ix, g, b.last() as int) == c {
            assert(f =~= fp.push(b.last()));
            push_index_facts(fp, b.last(), w);
            assert(f[w] == b[m]);
        } else {
            assert(f =~= fp);
            assert(f[w] == b[m]);
        }
    }
}

/// Every member of `b` whose cost lies below `cmax` appears in the sweep.
proof fn lemma_cost_sweep_complete(ix: Index, g: Seq<SpecNode>, b: Seq<u32>, cmax: int, m: int)
    requires
        0 <= m < b.len(),
        0 <= spec_graph_cost(ix, g, b[m] as int) < cmax,
    ensures
        spec_cost_sweep(ix, g, b, cmax).contains(b[m]),
    decreases cmax,
{
    let s = spec_cost_sweep(ix, g, b, cmax);
    let sp = spec_cost_sweep(ix, g, b, cmax - 1);
    let f = spec_cost_filter(ix, g, b, cmax - 1);
    assert(s =~= sp + f);
    if spec_graph_cost(ix, g, b[m] as int) == cmax - 1 {
        lemma_cost_filter_complete(ix, g, b, cmax - 1, m);
        let w = choose|w: int| 0 <= w < f.len() && f[w] == b[m];
        add_index_facts(sp, f, w + sp.len());
        assert(s[w + sp.len()] == b[m]);
    } else {
        lemma_cost_sweep_complete(ix, g, b, cmax - 1, m);
        let w = choose|w: int| 0 <= w < sp.len() && sp[w] == b[m];
        add_index_facts(sp, f, w);
        assert(s[w] == b[m]);
    }
}

/// The ordered bucket is a permutation of the candidate bucket: ordering by
/// proximity cost loses no candidate and invents none, so the ranking
/// pipeline yields a total order over the candidate set.
pub proof fn lemma_bucket_order_total(ix: Index, g: Seq<SpecNode>, b: Seq<u32>, prox: bool)
    requires
        forall|i: int, j: int| #![trigger b[i], b[j]] 0 <= i < j < b.len() ==> b[i] < b[j],
    ensures
        forall|m: int|
            0 <= m < b.len() ==> spec_bucket_order(ix, g, b, prox).contains(#[trigger] b[m]),
        forall|m: int|
            0 <= m < spec_bucket_order(ix, g, b, prox).len() ==> b.contains(
                #[trigger] spec_bucket_order(ix, g, b, prox)[m],
            ),
{
    if prox {
        let cmax = 8 * (g.len() as int) + 1;
        lemma_cost_sweep_props(ix, g, b, cmax);
        assert forall|m: int| 0 <= m < b.len() implies spec_cost_sweep(ix, g, b, cmax).contains(
            #[trigger] b[m],
        ) by {
            crate::matching::lemma_graph_cost_bound(ix, g, b[m] as int);
            lemma_cost_sweep_complete(ix, g, b, cmax, m);
        };
    } else {
        assert forall|m: int| 0 <= m < b.len() implies spec_bucket_order(
            ix,
            g,
            b,
            prox,
        ).contains(#[trigger] b[m]) by {
            assert(spec_bucket_order(ix, g, b, prox)[m] == b[m]);
        };
        assert forall|m: int| 0 <= m < b.len() implies b.contains(
            #[trigger] spec_bucket_order(ix, g, b, prox)[m],
        ) by {
            assert(b[m] == spec_bucket_order(ix, g, b, prox)[m]);
        };
    }
}

} // verus!
