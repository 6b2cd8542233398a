use vstd::prelude::*;
use vstd::string::*;
use crate::index::{rec_view, settings_view, DocRecord, SpecFieldValue};
use crate::indexer::{spec_doc_issue, Error, IndexerBuilder, SpecDocOp};
use crate::index::SpecDocEntry;
use crate::reduce::TermsMatchingStrategy;
use crate::search::{ids_distinct, lemma_search_sound, run_query, SearchResult};
use crate::store::Store;

verus! {

// A small closed universe of documents and keys, and batches of add/delete
// operations over it: the workload under which the index is exercised.
// Batches drawn from arbitrary bytes replay against the store; after each
// committed batch a scan and a search must find the index consistent.

/// One of six fixed documents over two keys.
#[derive(Clone, Copy, PartialEq, Eq, Structural, Debug)]
pub enum Document {
    One,
    Two,
    Three,
    Four,
    Five,
    Six,
}

/// The record of each fixed document.
pub open spec fn spec_to_d(d: Document) -> Seq<(Seq<char>, SpecFieldValue)> {
    match d {
        Document::One => seq![
            ("id"@, SpecFieldValue::Int(0)),
            ("doggo"@, SpecFieldValue::Str("bernese"@)),
        ],
        Document::Two => seq![
            ("id"@, SpecFieldValue::Int(0)),
            ("doggo"@, SpecFieldValue::Str("golden"@)),
        ],
        Document::Three => seq![
            ("id"@, SpecFieldValue::Int(0)),
            ("catto"@, SpecFieldValue::Str("jorts"@)),
        ],
        Document::Four => seq![
            ("id"@, SpecFieldValue::Int(1)),
            ("doggo"@, SpecFieldValue::Str("bernese"@)),
        ],
        Document::Five => seq![
            ("id"@, SpecFieldValue::Int(1)),
            ("doggo"@, SpecFieldValue::Str("golden"@)),
        ],
        Document::Six => seq![
            ("id"@, SpecFieldValue::Int(1)),
            ("catto"@, SpecFieldValue::Str("jorts"@)),
        ],
    }
}

impl Document {
    /// The document a byte of fuzz input selects.
    pub fn from_byte(b: u8) -> (r: Self)
        ensures
            r == (match b % 6 {
                0u8 => Document::One,
                1u8 => Document::Two,
                2u8 => Document::Three,
                3u8 => Document::Four,
                4u8 => Document::Five,
                _ => Document::Six,
            }),
    {
        match b % 6 {
            0 => Document::One,
            1 => Document::Two,
            2 => Document::Three,
            3 => Document::Four,
            4 => Document::Five,
            _ => Document::Six,
        }
    }

    /// The record this document stands for.
    pub fn to_d(&self) -> (r: DocRecord)
        ensures
            rec_view(r) == spec_to_d(*self),
    {
        let mut r = DocRecord::new();
        match self {
            Document::One => {
                r.add_int_field("id", 0);
                r.add_str_field("doggo", "bernese");
            },
            Document::Two => {
                r.add_int_field("id", 0);
                r.add_str_field("doggo", "golden");
            },
            Document::Three => {
                r.add_int_field("id", 0);
                r.add_str_field("catto", "jorts");
            },
            Document::Four => {
                r.add_int_field("id", 1);
                r.add_str_field("doggo", "bernese");
            },
            Document::Five => {
                r.add_int_field("id", 1);
                r.add_str_field("doggo", "golden");
            },
            Document::Six => {
                r.add_int_field("id", 1);
                r.add_str_field("catto", "jorts");
            },
        }
        proof {
            assert(rec_view(r) =~= spec_to_d(*self));
        }
        r
    }
}

/// One of the two external keys of the universe.
#[derive(Clone, Copy, PartialEq, Eq, Structural, Debug)]
pub enum DocId {
    Zero,
    One,
}

/// The text of each key.
pub open spec fn spec_to_s(d: DocId) -> Seq<char> {
    match d {
        DocId::Zero => "0"@,
        DocId::One => "1"@,
    }
}

impl DocId {
    /// The key a byte of fuzz input selects.
    pub fn from_byte(b: u8) -> (r: Self)
        ensures
            r == (if b % 2 == 0 {
                DocId::Zero
            } else {
                DocId::One
            }),
    {
        if b % 2 == 0 {
            DocId::Zero
        } else {
            DocId::One
        }
    }

    /// The key as text.
    pub fn to_s(&self) -> (r: String)
        ensures
            r@ == spec_to_s(*self),
    {
        match self {
            DocId::Zero => "0".to_owned(),
            DocId::One => "1".to_owned(),
        }
    }
}

/// One document operation of a batch.
#[derive(Clone, Copy, PartialEq, Eq, Structural, Debug)]
pub enum Operation {
    AddDoc(Document),
    DeleteDoc(DocId),
}

impl Operation {
    /// The operation two bytes of fuzz input select.
    pub fn from_bytes(sel: u8, payload: u8) -> (r: Self)
        ensures
            r == (if sel % 2 == 0 {
                Operation::AddDoc(
                    match payload % 6 {
                        0u8 => Document::One,
                        1u8 => Document::Two,
                        2u8 => Document::Three,
                        3u8 => Document::Four,
                        4u8 => Document::Five,
                        _ => Document::Six,
                    },
                )
            } else {
                Operation::DeleteDoc(
                    if payload % 2 == 0 {
                        DocId::Zero
                    } else {
                        DocId::One
                    },
                )
            }),
    {
        if sel % 2 == 0 {
            Operation::AddDoc(Document::from_byte(payload))
        } else {
            Operation::DeleteDoc(DocId::from_byte(payload))
        }
    }
}

/// A batch of operations applied in one write transaction.
pub struct Batch(pub Vec<Operation>);

/// Every fixed document passes batch validation under the `id` primary key.
proof fn lemma_fixture_ok(d: Document)
    ensures
        spec_doc_issue("id"@, spec_to_d(d)) is None,
{
    reveal_strlit("id");
    reveal_strlit("doggo");
    reveal_strlit("catto");
    let rec = spec_to_d(d);
    match d {
        Document::One => {
            assert(rec[1].0 == "doggo"@);
        },
        Document::Two => {
            assert(rec[1].0 == "doggo"@);
        },
        Document::Three => {
            assert(rec[1].0 == "catto"@);
        },
        Document::Four => {
            assert(rec[1].0 == "doggo"@);
        },
        Document::Five => {
            assert(rec[1].0 == "doggo"@);
        },
        Document::Six => {
            assert(rec[1].0 == "catto"@);
        },
    }
    assert(rec.len() == 2);
    assert(rec[0].0 == "id"@);
    assert(rec[1].0.len() == 5);
    assert(rec[1].0 != "id"@);
    assert forall|i: int, j: int| 0 <= i < j < rec.len() implies rec[i].0 != rec[j].0 by {
        assert(i == 0 && j == 1);
    };
    assert(crate::index::spec_distinct_names(rec));
    assert(exists|i: int| 0 <= i < rec.len() && rec[i].0 == "id"@);
    let w = choose|i: int| 0 <= i < rec.len() && rec[i].0 == "id"@;
    assert(w == 0);
    assert(crate::index::spec_field_lookup(rec, "id"@) == Option::Some(rec[0].1));
    assert(crate::index::spec_record_key("id"@, rec) is Some);
}

/// The buffered operation a workload operation stands for.
pub open spec fn spec_op_of(op: Operation) -> SpecDocOp {
    match op {
        Operation::AddDoc(d) => SpecDocOp::Add {
            key: crate::indexer::spec_key_of("id"@, spec_to_d(d)),
            rec: spec_to_d(d),
        },
        Operation::DeleteDoc(id) => SpecDocOp::Del { key: spec_to_s(id) },
    }
}

/// The buffered operations of one batch, in call order.
pub open spec fn spec_batch_ops_of(b: Batch) -> Seq<SpecDocOp> {
    b.0@.map_values(|op: Operation| spec_op_of(op))
}

/// The committed documents after replaying a sequence of batches in order,
/// each batch applied through the indexer's own operation semantics.
pub open spec fn spec_replay(
    docs: Seq<Option<SpecDocEntry>>,
    searchable: Option<Seq<Seq<char>>>,
    batches: Seq<Batch>,
) -> Seq<Option<SpecDocEntry>>
    decreases batches.len(),
{
    if batches.len() == 0 {
        docs
    } else {
        crate::indexer::spec_apply_ops(
            spec_replay(docs, searchable, batches.drop_last()),
            searchable,
            spec_batch_ops_of(batches.last()),
        )
    }
}

/// Replaying more batches never shrinks the slot vector.
proof fn lemma_replay_take_len(
    docs: Seq<Option<SpecDocEntry>>,
    searchable: Option<Seq<Seq<char>>>,
    batches: Seq<Batch>,
    j: int,
)
    requires
        0 <= j <= batches.len(),
    ensures
        spec_replay(docs, searchable, batches).len() >= spec_replay(
            docs,
            searchable,
            batches.take(j),
        ).len(),
    decreases batches.len(),
{
    if j == batches.len() {
        assert(batches.take(j) =~= batches);
    } else {
        crate::indexer::lemma_apply_len(
            spec_replay(docs, searchable, batches.drop_last()),
            searchable,
            spec_batch_ops_of(batches.last()),
        );
        assert(batches.drop_last().take(j) =~= batches.take(j));
        lemma_replay_take_len(docs, searchable, batches.drop_last(), j);
    }
}

/// One consistency check over the committed state: the default search must
/// return exactly the spec's result — distinct, live identifiers — and
/// fetching those documents must succeed.
fn scan_and_search(store: &Store) -> (r: SearchResult)
    requires
        store.committed.wf(),
    ensures
        r.documents_ids@ == crate::search::spec_search_ids(
            store.committed,
            Option::None,
            TermsMatchingStrategy::Last,
            20,
        ),
        ids_distinct(r.documents_ids@),
        forall|m: int|
            0 <= m < r.documents_ids@.len() ==> store.committed.live(
                (#[trigger] r.documents_ids@[m]) as int,
            ),
{
    let no_query: Option<String> = None;
    let ids = run_query(&store.committed, &no_query, TermsMatchingStrategy::Last, 20);
    proof {
        lemma_search_sound(store.committed, Option::None, TermsMatchingStrategy::Last, 20);
    }
    let res = SearchResult { documents_ids: ids };
    match store.committed.documents(&res.documents_ids) {
        Result::Ok(_) => {},
        Result::Err(_) => {
            proof {
                assert(false);
            }
        },
    }
    res
}

/// Replay a sequence of batches against the store, checking after each
/// commit that the index never corrupts.  On success the committed state is
/// exactly the in-order replay of every batch, and the returned result is
/// the spec's default search over it: distinct identifiers, none dangling,
/// every one fetchable.  The replay fails only when the identifier space is
/// exhausted; the failing batch is then aborted whole, leaving the store on
/// the last committed batch boundary.
pub fn run_batches(store: &mut Store, batches: &Vec<Batch>) -> (r: Result<SearchResult, Error>)
    requires
        old(store).committed.wf(),
        !old(store).writer_open,
        settings_view(old(store).committed.settings).primary_key == "id"@,
    ensures
        final(store).committed.wf(),
        !final(store).writer_open,
        settings_view(final(store).committed.settings) == settings_view(
            old(store).committed.settings,
        ),
        r is Ok <==> spec_replay(
            old(store).committed.view_docs(),
            old(store).committed.searchable_view(),
            batches@,
        ).len() <= u32::MAX,
        match r {
            Result::Ok(res) => final(store).committed.view_docs() == spec_replay(
                old(store).committed.view_docs(),
                old(store).committed.searchable_view(),
                batches@,
            ) && res.documents_ids@ == crate::search::spec_search_ids(
                final(store).committed,
                Option::None,
                TermsMatchingStrategy::Last,
                20,
            ) && ids_distinct(res.documents_ids@) && forall|m: int|
                0 <= m < res.documents_ids@.len() ==> final(store).committed.live(
                    (#[trigger] res.documents_ids@[m]) as int,
                ),
            Result::Err(e) => e == Error::StorageIo && exists|j: int|
                #![trigger batches@.take(j)]
                0 <= j < batches@.len() && final(store).committed.view_docs() == spec_replay(
                    old(store).committed.view_docs(),
                    old(store).committed.searchable_view(),
                    batches@.take(j),
                ) && spec_replay(
                    old(store).committed.view_docs(),
                    old(store).committed.searchable_view(),
                    batches@.take(j + 1),
                ).len() > u32::MAX,
        },
{
    let ghost dv0 = store.committed.view_docs();
    let ghost sv = store.committed.searchable_view();
    let mut b: usize = 0;
    proof {
        assert(batches@.take(0) =~= Seq::<Batch>::empty());
    }
    while b < batches.len()
        invariant
            b <= batches@.len(),
            dv0 == old(store).committed.view_docs(),
            sv == old(store).committed.searchable_view(),
            store.committed.wf(),
            !store.writer_open,
            settings_view(store.committed.settings) == settings_view(
                old(store).committed.settings,
            ),
            settings_view(store.committed.settings).primary_key == "id"@,
            store.committed.view_docs() == spec_replay(dv0, sv, batches@.take(b as int)),
        decreases batches@.len() - b,
    {
        let mut txn = match store.write_txn() {
            Result::Ok(t) => t,
            Result::Err(_) => {
                proof {
                    assert(false);
                }
                return Err(Error::StorageIo);
            },
        };
        proof {
            assert(txn.index.searchable_view() == sv);
        }
        let mut builder = IndexerBuilder::new(&txn.index);
        let ops = &batches[b].0;
        let ghost bops = spec_batch_ops_of(batches@[b as int]);
        let mut i: usize = 0;
        proof {
            assert(builder.ops_seq() =~= bops.take(0));
        }
        while i < ops.len()
            invariant
                b < batches@.len(),
                ops@ == batches@[b as int].0@,
                bops == spec_batch_ops_of(batches@[b as int]),
                bops.len() == ops@.len(),
                i <= ops@.len(),
                builder.wf(),
                builder.primary_key@ == "id"@,
                builder.ops_seq() == bops.take(i as int),
                txn.index.wf(),
                txn.index.view_docs() == spec_replay(dv0, sv, batches@.take(b as int)),
                txn.index.searchable_view() == sv,
                settings_view(txn.index.settings).primary_key == "id"@,
            decreases ops@.len() - i,
        {
            proof {
                assert(bops[i as int] == spec_op_of(ops@[i as int]));
                assert(bops.take(i + 1) =~= bops.take(i as int).push(bops[i as int]));
            }
            match ops[i] {
                Operation::AddDoc(doc) => {
                    let rec = doc.to_d();
                    let ghost rv = rec_view(rec);
                    let mut one: Vec<DocRecord> = Vec::new();
                    one.push(rec);
                    proof {
                        lemma_fixture_ok(doc);
                        let bv = one@.map_values(|d: DocRecord| rec_view(d));
                        assert(bv =~= seq![rv]);
                        assert(bv.first() == rv);
                        assert(bv.drop_first() =~= Seq::<
                            Seq<(Seq<char>, SpecFieldValue)>,
                        >::empty());
                        assert(rv == spec_to_d(doc));
                        assert(spec_doc_issue("id"@, bv.first()) is None);
                        assert(crate::indexer::spec_batch_issue("id"@, bv.drop_first()) is None);
                        assert(crate::indexer::spec_batch_issue("id"@, bv) is None);
                    }
                    let ghost pre_ops = builder.ops_seq();
                    match builder.add_documents(one) {
                        Result::Ok(_) => {
                            proof {
                                let bv = seq![rv];
                                assert(crate::indexer::spec_batch_ops("id"@, bv)
                                    =~= seq![
                                    SpecDocOp::Add {
                                        key: crate::indexer::spec_key_of("id"@, rv),
                                        rec: rv,
                                    },
                                ]);
                                assert(builder.ops_seq() =~= pre_ops.push(bops[i as int]));
                                assert(builder.ops_seq() =~= bops.take(i + 1));
                            }
                        },
                        Result::Err(_) => {
                            proof {
                                assert(false);
                            }
                            return Err(Error::StorageIo);
                        },
                    }
                },
                Operation::DeleteDoc(id) => {
                    let key = id.to_s();
                    let mut keys: Vec<String> = Vec::new();
                    keys.push(key);
                    let ghost pre_ops = builder.ops_seq();
                    let _ = builder.remove_documents(&keys);
                    proof {
                        assert(keys@.map_values(|k: String| SpecDocOp::Del { key: k@ })
                            =~= seq![SpecDocOp::Del { key: spec_to_s(id) }]);
                        assert(builder.ops_seq() =~= pre_ops.push(bops[i as int]));
                        assert(builder.ops_seq() =~= bops.take(i + 1));
                    }
                },
            }
            i = i + 1;
        }
        proof {
            assert(bops.take(bops.len() as int) =~= bops);
            assert(builder.ops_seq() == bops);
        }
        let ghost txn_docs = txn.index.view_docs();
        match builder.execute(&mut txn.index) {
            Result::Ok(_) => {
                proof {
                    assert(batches@.take(b + 1).drop_last() =~= batches@.take(b as int));
                    assert(batches@.take(b + 1).last() == batches@[b as int]);
                    assert(txn.index.view_docs() == spec_replay(dv0, sv, batches@.take(b + 1)));
                }
                store.commit(txn);
            },
            Result::Err(e) => {
                proof {
                    assert(batches@.take(b + 1).drop_last() =~= batches@.take(b as int));
                    assert(batches@.take(b + 1).last() == batches@[b as int]);
                    assert(spec_replay(dv0, sv, batches@.take(b + 1)).len() > u32::MAX);
                }
                store.abort(txn);
                proof {
                    lemma_replay_take_len(dv0, sv, batches@, b + 1);
                    assert(batches@.take(batches@.len() as int) =~= batches@);
                    assert(spec_replay(dv0, sv, batches@).len() > u32::MAX);
                    assert(0 <= b < batches@.len() && store.committed.view_docs() == spec_replay(
                        dv0,
                        sv,
                        batches@.take(b as int),
                    ) && spec_replay(dv0, sv, batches@.take(b + 1)).len() > u32::MAX);
                }
                return Err(e);
            },
        }
        let _check = scan_and_search(store);
        b = b + 1;
    }
    proof {
        assert(batches@.take(batches@.len() as int) =~= batches@);
        assert(store.committed.view_docs() == spec_replay(dv0, sv, batches@));
    }
    let res = scan_and_search(store);
    Ok(res)
}

} // verus!
