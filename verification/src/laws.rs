use vstd::prelude::*;
use crate::index::{keys_unique, Index, SpecDocEntry, SpecFieldValue};
use crate::indexer::{
    spec_add, spec_apply_op, spec_apply_ops, spec_has_key, spec_key_ix, SpecDocOp,
};
use crate::matching::{spec_graph_match, spec_node_match};
use crate::query::SpecNode;
use crate::reduce::{spec_variant, TermsMatchingStrategy};
use crate::search::{
    spec_bucket_upto, spec_buckets_prefix, spec_cost_sweep, spec_doc_in_bucket,
    spec_first_nonempty, spec_matches_upto, spec_ranked, spec_search_ids,
};

verus! {

// The laws the library keeps, stated over the same spec functions that the
// executable contracts use.

/// Monotonic reduction: under any strategy, a document matching a variant
/// also matches the next, looser variant, provided that looser variant still
/// holds a node.  (The loosest variant of a phrase-free query is empty and
/// matches no document, so it is excluded.)  Hence the candidate set of each
/// variant is a subset of its successor's.
pub proof fn lemma_monotonic_reduction(ix: Index, g: Seq<SpecNode>, k: nat, d: int)
    requires
        spec_graph_match(ix, spec_variant(g, k), d),
        spec_variant(g, k + 1).len() > 0,
    ensures
        spec_graph_match(ix, spec_variant(g, k + 1), d),
{
    let v0 = spec_variant(g, k);
    let v1 = spec_variant(g, k + 1);
    assert forall|i: int| 0 <= i < v1.len() implies spec_node_match(
        ix,
        #[trigger] v1[i],
        d,
    ) by {
        assert(v1.contains(v1[i]));
        crate::reduce::lemma_variant_contains(g, k, v1[i]);
        let w = choose|w: int| 0 <= w < v0.len() && v0[w] == v1[i];
        assert(spec_node_match(ix, v0[w], d));
    };
}

proof fn lemma_matches_upto_dead(ix: Index, g: Seq<SpecNode>, n: int)
    requires
        forall|d: int| !ix.live(d),
    ensures
        spec_matches_upto(ix, g, n).len() == 0,
    decreases n,
{
    if n > 0 {
        lemma_matches_upto_dead(ix, g, n - 1);
        if spec_graph_match(ix, g, n - 1) {
            crate::search::lemma_match_live(ix, g, n - 1);
            assert(!ix.live(n - 1));
        }
        assert(spec_matches_upto(ix, g, n) =~= spec_matches_upto(ix, g, n - 1));
    }
}

proof fn lemma_bucket_upto_dead(ix: Index, variants: Seq<Seq<SpecNode>>, k: int, n: int)
    requires
        forall|d: int| !ix.live(d),
    ensures
        spec_bucket_upto(ix, variants, k, n).len() == 0,
    decreases n,
{
    if n > 0 {
        lemma_bucket_upto_dead(ix, variants, k, n - 1);
        if spec_doc_in_bucket(ix, variants, k, n - 1) {
            crate::search::lemma_match_live(ix, variants[k], n - 1);
        }
        assert(spec_bucket_upto(ix, variants, k, n) =~= spec_bucket_upto(ix, variants, k, n - 1));
    }
}

proof fn lemma_cost_sweep_of_empty(ix: Index, g: Seq<SpecNode>, b: Seq<u32>, cmax: int)
    requires
        b.len() == 0,
    ensures
        spec_cost_sweep(ix, g, b, cmax).len() == 0,
    decreases cmax,
{
    if cmax > 0 {
        lemma_cost_sweep_of_empty(ix, g, b, cmax - 1);
    }
}

proof fn lemma_buckets_prefix_dead(
    ix: Index,
    variants: Seq<Seq<SpecNode>>,
    prox: bool,
    n: int,
    k: int,
)
    requires
        forall|d: int| !ix.live(d),
    ensures
        spec_buckets_prefix(ix, variants, prox, n, k).len() == 0,
    decreases k,
{
    if k > 0 {
        lemma_buckets_prefix_dead(ix, variants, prox, n, k - 1);
        lemma_bucket_upto_dead(ix, variants, k - 1, n);
        if prox {
            lemma_cost_sweep_of_empty(
                ix,
                variants[k - 1],
                spec_bucket_upto(ix, variants, k - 1, n),
                8 * (variants[k - 1].len() as int) + 1,
            );
        }
    }
}

proof fn lemma_first_nonempty_dead(ix: Index, variants: Seq<Seq<SpecNode>>, n: int, k: int)
    requires
        forall|d: int| !ix.live(d),
        0 <= k <= variants.len(),
    ensures
        spec_first_nonempty(ix, variants, n, k) == variants.len(),
    decreases variants.len() - k,
{
    if k < variants.len() {
        lemma_matches_upto_dead(ix, variants[k], n);
        lemma_first_nonempty_dead(ix, variants, n, k + 1);
    }
}

/// Delete-then-search: once every document has been deleted, a search with
/// any query returns the empty ordered list — and `execute` never raises an
/// error for an empty result.
pub proof fn lemma_delete_then_search(
    ix: Index,
    q: Seq<char>,
    st: TermsMatchingStrategy,
    limit: int,
)
    requires
        forall|d: int| !ix.live(d),
        0 <= limit,
    ensures
        spec_search_ids(ix, Option::Some(q), st, limit).len() == 0,
{
    let g = crate::query::spec_parse(q);
    let variants = crate::reduce::spec_variants(g, st);
    let n = ix.view_docs().len() as int;
    let cs = crate::index::settings_view(ix.settings).criteria;
    let prox = crate::search::spec_has_criterion(cs, crate::index::Criterion::Proximity);
    if crate::search::spec_has_criterion(cs, crate::index::Criterion::Words) {
        lemma_buckets_prefix_dead(ix, variants, prox, n, variants.len() as int);
    } else {
        lemma_first_nonempty_dead(ix, variants, n, 0);
    }
    assert(spec_ranked(ix, q, st).len() == 0);
}

// --- last write wins ---

/// What the index holds for an external key: the record of its live
/// document, if any.
pub open spec fn spec_key_state(docs: Seq<Option<SpecDocEntry>>, k: Seq<char>) -> Option<
    Seq<(Seq<char>, SpecFieldValue)>,
> {
    if spec_has_key(docs, k) {
        Option::Some(docs[spec_key_ix(docs, k)]->0.record)
    } else {
        Option::None
    }
}

/// Applying one operation keeps external keys unique.
pub proof fn lemma_apply_op_unique(
    docs: Seq<Option<SpecDocEntry>>,
    searchable: Option<Seq<Seq<char>>>,
    op: SpecDocOp,
)
    requires
        keys_unique(docs),
    ensures
        keys_unique(spec_apply_op(docs, searchable, op)),
{
    let r = spec_apply_op(docs, searchable, op);
    match op {
        SpecDocOp::Add { key, rec } => {
            if spec_has_key(docs, key) {
                let i0 = spec_key_ix(docs, key);
                assert(0 <= i0 < docs.len() && docs[i0] is Some && docs[i0]->0.key == key);
                assert forall|a: int, b: int|
                    0 <= a < b < r.len() && r[a] is Some && r[b] is Some implies r[a]->0.key != r[
                    b
                ]->0.key by {
                    assert(docs[a] is Some && docs[b] is Some);
                    assert(docs[a]->0.key != docs[b]->0.key);
                    assert(r[a]->0.key == if a == i0 {
                        key
                    } else {
                        docs[a]->0.key
                    });
                    assert(r[b]->0.key == if b == i0 {
                        key
                    } else {
                        docs[b]->0.key
                    });
                };
            } else {
                assert forall|a: int, b: int|
                    0 <= a < b < r.len() && r[a] is Some && r[b] is Some implies r[a]->0.key != r[
                    b
                ]->0.key by {
                    if b < docs.len() {
                        assert(docs[a]->0.key != docs[b]->0.key);
                    } else {
                        assert(r[b]->0.key == key);
                        assert(r[a] == docs[a]);
                        assert(!(docs[a] is Some && docs[a]->0.key == key));
                    }
                };
            }
        },
        SpecDocOp::Del { key } => {
            if spec_has_key(docs, key) {
                assert forall|a: int, b: int|
                    0 <= a < b < r.len() && r[a] is Some && r[b] is Some implies r[a]->0.key != r[
                    b
                ]->0.key by {
                    assert(docs[a] is Some && docs[b] is Some);
                    assert(docs[a]->0.key != docs[b]->0.key);
                };
            }
        },
    }
}

/// Adding a document sets its key's state to the new record.
proof fn lemma_add_sets(
    docs: Seq<Option<SpecDocEntry>>,
    searchable: Option<Seq<Seq<char>>>,
    k: Seq<char>,
    rec: Seq<(Seq<char>, SpecFieldValue)>,
)
    requires
        keys_unique(docs),
    ensures
        spec_key_state(spec_add(docs, searchable, k, rec), k) == Option::Some(rec),
{
    let r = spec_add(docs, searchable, k, rec);
    lemma_apply_op_unique(docs, searchable, SpecDocOp::Add { key: k, rec });
    if spec_has_key(docs, k) {
        let i0 = spec_key_ix(docs, k);
        assert(r[i0] is Some && r[i0]->0.key == k);
        assert(spec_has_key(r, k));
        let w = spec_key_ix(r, k);
        assert(0 <= w < r.len() && r[w] is Some && r[w]->0.key == k);
        if w != i0 {
            if w < i0 {
                assert(r[w]->0.key != r[i0]->0.key);
            } else {
                assert(r[i0]->0.key != r[w]->0.key);
            }
        }
        assert(r[i0]->0.record == rec);
    } else {
        let i0 = docs.len() as int;
        assert(r[i0] is Some && r[i0]->0.key == k);
        assert(spec_has_key(r, k));
        let w = spec_key_ix(r, k);
        assert(0 <= w < r.len() && r[w] is Some && r[w]->0.key == k);
        if w != i0 {
            if w < i0 {
                assert(r[w]->0.key != r[i0]->0.key);
            } else {
                assert(r[i0]->0.key != r[w]->0.key);
            }
        }
        assert(r[i0]->0.record == rec);
    }
}

/// An operation on another key leaves a key's state alone.
proof fn lemma_op_frame(
    docs: Seq<Option<SpecDocEntry>>,
    searchable: Option<Seq<Seq<char>>>,
    op: SpecDocOp,
    k: Seq<char>,
)
    requires
        keys_unique(docs),
        op is Add ==> op->Add_key != k,
        op is Del ==> op->Del_key != k,
    ensures
        spec_key_state(spec_apply_op(docs, searchable, op), k) == spec_key_state(docs, k),
{
    let r = spec_apply_op(docs, searchable, op);
    lemma_apply_op_unique(docs, searchable, op);
    if spec_has_key(docs, k) {
        let i0 = spec_key_ix(docs, k);
        assert(0 <= i0 < docs.len() && docs[i0] is Some && docs[i0]->0.key == k);
        assert(r[i0] == docs[i0]) by {
            match op {
                SpecDocOp::Add { key, rec } => {
                    if spec_has_key(docs, key) {
                        let j0 = spec_key_ix(docs, key);
                        assert(docs[j0]->0.key == key);
                        assert(j0 != i0);
                    }
                },
                SpecDocOp::Del { key } => {
                    if spec_has_key(docs, key) {
                        let j0 = spec_key_ix(docs, key);
                        assert(docs[j0]->0.key == key);
                        assert(j0 != i0);
                    }
                },
            }
        };
        assert(spec_has_key(r, k));
        let w = spec_key_ix(r, k);
        assert(0 <= w < r.len() && r[w] is Some && r[w]->0.key == k);
        if w != i0 {
            if w < i0 {
                assert(r[w]->0.key != r[i0]->0.key);
            } else {
                assert(r[i0]->0.key != r[w]->0.key);
            }
        }
    } else {
        if spec_has_key(r, k) {
            let w = spec_key_ix(r, k);
            assert(0 <= w < r.len() && r[w] is Some && r[w]->0.key == k);
            match op {
                SpecDocOp::Add { key, rec } => {
                    if spec_has_key(docs, key) {
                        assert(w < docs.len());
                        if w == spec_key_ix(docs, key) {
                            assert(r[w]->0.key == key);
                        } else {
                            assert(docs[w] is Some && docs[w]->0.key == k);
                        }
                        assert(false);
                    } else {
                        if w < docs.len() {
                            assert(docs[w] is Some && docs[w]->0.key == k);
                        } else {
                            assert(r[w]->0.key == key);
                        }
                        assert(false);
                    }
                },
                SpecDocOp::Del { key } => {
                    if spec_has_key(docs, key) {
                        if w == spec_key_ix(docs, key) {
                            assert(r[w] is None);
                        } else {
                            assert(docs[w] is Some && docs[w]->0.key == k);
                        }
                        assert(false);
                    } else {
                        assert(docs[w] is Some && docs[w]->0.key == k);
                        assert(false);
                    }
                },
            }
        }
    }
}

/// Applying operations keeps external keys unique.
pub proof fn lemma_apply_ops_unique(
    docs: Seq<Option<SpecDocEntry>>,
    searchable: Option<Seq<Seq<char>>>,
    ops: Seq<SpecDocOp>,
)
    requires
        keys_unique(docs),
    ensures
        keys_unique(spec_apply_ops(docs, searchable, ops)),
    decreases ops.len(),
{
    if ops.len() > 0 {
        lemma_apply_ops_unique(docs, searchable, ops.drop_last());
        lemma_apply_op_unique(spec_apply_ops(docs, searchable, ops.drop_last()), searchable,
            ops.last());
    }
}

/// Idempotent replace, last writer wins: when the last operation of a batch
/// that touches key `k` is an add of record `rec` — in particular when `k`
/// is added twice and `rec` is the second record — the index afterwards
/// holds exactly one document under `k`, carrying `rec`.
pub proof fn lemma_last_write_wins(
    docs: Seq<Option<SpecDocEntry>>,
    searchable: Option<Seq<Seq<char>>>,
    pre: Seq<SpecDocOp>,
    k: Seq<char>,
    rec: Seq<(Seq<char>, SpecFieldValue)>,
    post: Seq<SpecDocOp>,
)
    requires
        keys_unique(docs),
        forall|i: int|
            0 <= i < post.len() ==> ((#[trigger] post[i]) is Add ==> post[i]->Add_key != k) && (
            post[i] is Del ==> post[i]->Del_key != k),
    ensures
        spec_key_state(
            spec_apply_ops(docs, searchable, pre + seq![SpecDocOp::Add { key: k, rec }] + post),
            k,
        ) == Option::Some(rec),
        keys_unique(
            spec_apply_ops(docs, searchable, pre + seq![SpecDocOp::Add { key: k, rec }] + post),
        ),
    decreases post.len(),
{
    let mid = pre + seq![SpecDocOp::Add { key: k, rec }];
    lemma_apply_ops_unique(docs, searchable, mid + post);
    if post.len() == 0 {
        assert(mid + post =~= mid);
        assert(mid.drop_last() =~= pre);
        assert(mid.last() == SpecDocOp::Add { key: k, rec });
        lemma_apply_ops_unique(docs, searchable, pre);
        lemma_add_sets(spec_apply_ops(docs, searchable, pre), searchable, k, rec);
    } else {
        assert(forall|i: int|
            0 <= i < post.drop_last().len() ==> ((#[trigger] post.drop_last()[i]) is Add
                ==> post.drop_last()[i]->Add_key != k) && (post.drop_last()[i] is Del
                ==> post.drop_last()[i]->Del_key != k));
        lemma_last_write_wins(docs, searchable, pre, k, rec, post.drop_last());
        assert((mid + post).drop_last() =~= mid + post.drop_last());
        assert((mid + post).last() == post.last());
        lemma_apply_ops_unique(docs, searchable, mid + post.drop_last());
        assert(post[post.len() - 1] == post.last());
        lemma_op_frame(
            spec_apply_ops(docs, searchable, mid + post.drop_last()),
            searchable,
            post.last(),
            k,
        );
    }
}

} // verus!
