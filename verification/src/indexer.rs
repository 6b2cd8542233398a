use vstd::prelude::*;
use crate::index::{
    clone_record, distinct_names, field_lookup, rec_view, record_tokens, settings_view,
    spec_distinct_names, spec_record_key, spec_record_tokens, DocEntry, DocRecord, FieldValue,
    Index, SpecDocEntry, SpecFieldValue,
};
use crate::text::{i64_chars, str_to_chars};

verus! {

// The indexer: buffered add/delete operations applied to the index in one
// logical pass.  Within one builder the operations observe call order, so
// when several target the same primary key the last one wins.

/// An error of the indexing or search path.
#[derive(Clone, Copy, PartialEq, Eq, Structural, Debug)]
pub enum Error {
    /// A document lacks the configured primary key field.
    MissingPrimaryKey,
    /// A document repeats a field name.
    InvalidDocumentShape,
    /// A second write transaction was requested while one is open.
    TransactionConflict,
    /// The store cannot take further documents.
    StorageIo,
    /// A cooperative stop was requested.
    Cancelled,
}

/// A buffered document operation.
pub enum DocOp {
    Add { key: Vec<char>, record: DocRecord },
    Del { key: Vec<char> },
}

pub ghost enum SpecDocOp {
    Add { key: Seq<char>, rec: Seq<(Seq<char>, SpecFieldValue)> },
    Del { key: Seq<char> },
}

pub open spec fn op_view(op: DocOp) -> SpecDocOp {
    match op {
        DocOp::Add { key, record } => SpecDocOp::Add { key: key@, rec: rec_view(record) },
        DocOp::Del { key } => SpecDocOp::Del { key: key@ },
    }
}

pub open spec fn ops_view(ops: Seq<DocOp>) -> Seq<SpecDocOp> {
    ops.map_values(|op: DocOp| op_view(op))
}

/// Some live document carries this external key.
pub open spec fn spec_has_key(docs: Seq<Option<SpecDocEntry>>, key: Seq<char>) -> bool {
    exists|i: int| 0 <= i < docs.len() && docs[i] is Some && docs[i]->0.key == key
}

/// The identifier of the live document with this key.
pub open spec fn spec_key_ix(docs: Seq<Option<SpecDocEntry>>, key: Seq<char>) -> int {
    choose|i: int| 0 <= i < docs.len() && docs[i] is Some && docs[i]->0.key == key
}

/// Add or fully replace one document: an existing key keeps its identifier
/// and takes the new record; a new key takes the next fresh identifier.
pub open spec fn spec_add(
    docs: Seq<Option<SpecDocEntry>>,
    searchable: Option<Seq<Seq<char>>>,
    key: Seq<char>,
    rec: Seq<(Seq<char>, SpecFieldValue)>,
) -> Seq<Option<SpecDocEntry>> {
    let entry = SpecDocEntry { key, record: rec, toks: spec_record_tokens(searchable, rec) };
    if spec_has_key(docs, key) {
        docs.update(spec_key_ix(docs, key), Option::Some(entry))
    } else {
        docs.push(Option::Some(entry))
    }
}

/// Delete by key: an unknown key is a no-op; a known key empties its slot.
pub open spec fn spec_del(docs: Seq<Option<SpecDocEntry>>, key: Seq<char>) -> Seq<
    Option<SpecDocEntry>,
> {
    if spec_has_key(docs, key) {
        docs.update(spec_key_ix(docs, key), Option::None)
    } else {
        docs
    }
}

pub open spec fn spec_apply_op(
    docs: Seq<Option<SpecDocEntry>>,
    searchable: Option<Seq<Seq<char>>>,
    op: SpecDocOp,
) -> Seq<Option<SpecDocEntry>> {
    match op {
        SpecDocOp::Add { key, rec } => spec_add(docs, searchable, key, rec),
        SpecDocOp::Del { key } => spec_del(docs, key),
    }
}

/// The net effect of a buffered operation sequence, applied in call order.
pub open spec fn spec_apply_ops(
    docs: Seq<Option<SpecDocEntry>>,
    searchable: Option<Seq<Seq<char>>>,
    ops: Seq<SpecDocOp>,
) -> Seq<Option<SpecDocEntry>>
    decreases ops.len(),
{
    if ops.len() == 0 {
        docs
    } else {
        spec_apply_op(spec_apply_ops(docs, searchable, ops.drop_last()), searchable, ops.last())
    }
}

/// Number of add operations in a buffer.
pub open spec fn spec_added(ops: Seq<SpecDocOp>) -> nat
    decreases ops.len(),
{
    if ops.len() == 0 {
        0
    } else {
        spec_added(ops.drop_last()) + if ops.last() is Add {
            1nat
        } else {
            0nat
        }
    }
}

/// Number of delete operations that removed a live document.
pub open spec fn spec_removed(
    docs: Seq<Option<SpecDocEntry>>,
    searchable: Option<Seq<Seq<char>>>,
    ops: Seq<SpecDocOp>,
) -> nat
    decreases ops.len(),
{
    if ops.len() == 0 {
        0
    } else {
        spec_removed(docs, searchable, ops.drop_last()) + match ops.last() {
            SpecDocOp::Del { key } => if spec_has_key(
                spec_apply_ops(docs, searchable, ops.drop_last()),
                key,
            ) {
                1nat
            } else {
                0nat
            },
            SpecDocOp::Add { .. } => 0nat,
        }
    }
}

/// Applying operations never shrinks the slot vector.
pub proof fn lemma_apply_len(
    docs: Seq<Option<SpecDocEntry>>,
    searchable: Option<Seq<Seq<char>>>,
    ops: Seq<SpecDocOp>,
)
    ensures
        spec_apply_ops(docs, searchable, ops).len() >= docs.len(),
    decreases ops.len(),
{
    if ops.len() > 0 {
        lemma_apply_len(docs, searchable, ops.drop_last());
    }
}

impl Index {
    /// Find the live document with the given key, if any.
    pub fn find_key(&self, key: &Vec<char>) -> (r: Option<usize>)
        requires
            self.wf(),
        ensures
            match r {
                Option::Some(i) => self.live(i as int) && self.view_docs()[i as int]->0.key == key@
                    && spec_has_key(self.view_docs(), key@) && spec_key_ix(self.view_docs(), key@)
                    == i as int,
                Option::None => !spec_has_key(self.view_docs(), key@),
            },
    {
        let n = self.docs.len();
        let mut i: usize = 0;
        while i < n
            invariant
                self.wf(),
                n == self.docs@.len(),
                i <= n,
                forall|j: int|
                    0 <= j < i ==> !(self.view_docs()[j] is Some && self.view_docs()[j]->0.key
                        == key@),
            decreases n - i,
        {
            let hit = match &self.docs[i] {
                Option::Some(e) => crate::text::chars_eq(&e.key, key),
                Option::None => false,
            };
            if hit {
                proof {
                    lemma_key_ix_at(self.view_docs(), key@, i as int);
                }
                return Some(i);
            }
            i = i + 1;
        }
        None
    }
}

/// In a well-formed index the live slot carrying a key is unique, so the
/// chosen identifier is the one found.
proof fn lemma_key_ix_at(docs: Seq<Option<SpecDocEntry>>, key: Seq<char>, i: int)
    requires
        crate::index::keys_unique(docs),
        0 <= i < docs.len(),
        docs[i] is Some,
        docs[i]->0.key == key,
    ensures
        spec_has_key(docs, key),
        spec_key_ix(docs, key) == i,
{
    assert(spec_has_key(docs, key));
    let w = spec_key_ix(docs, key);
    assert(0 <= w < docs.len() && docs[w] is Some && docs[w]->0.key == key);
    if w < i {
        assert(docs[w]->0.key != docs[i]->0.key);
    } else if w > i {
        assert(docs[i]->0.key != docs[w]->0.key);
    }
}

impl Index {
    /// Add or fully replace one document.
    pub fn apply_add(&mut self, key: Vec<char>, record: DocRecord) -> (r: Result<bool, Error>)
        requires
            old(self).wf(),
            spec_distinct_names(rec_view(record)),
        ensures
            final(self).wf(),
            settings_view(final(self).settings) == settings_view(old(self).settings),
            r is Ok <==> spec_add(
                old(self).view_docs(),
                old(self).searchable_view(),
                key@,
                rec_view(record),
            ).len() <= u32::MAX,
            match r {
                Result::Ok(replaced) => final(self).view_docs() == spec_add(
                    old(self).view_docs(),
                    old(self).searchable_view(),
                    key@,
                    rec_view(record),
                ) && replaced == spec_has_key(old(self).view_docs(), key@),
                Result::Err(e) => e == Error::StorageIo && final(self).view_docs() == old(
                    self,
                ).view_docs(),
            },
    {
        let ghost dv0 = self.view_docs();
        let ghost sv = self.searchable_view();
        let ghost kv = key@;
        let ghost rv = rec_view(record);
        let tokens = record_tokens(&self.settings.searchable, &record);
        let ghost entry = SpecDocEntry {
            key: kv,
            record: rv,
            toks: spec_record_tokens(sv, rv),
        };
        match self.find_key(&key) {
            Option::Some(i) => {
                let e = DocEntry { key, record, tokens };
                self.docs[i] = Some(e);
                proof {
                    let dv1 = self.view_docs();
                    assert(dv1 =~= dv0.update(i as int, Option::Some(entry)));
                    assert(dv1 =~= spec_add(dv0, sv, kv, rv));
                    assert forall|a: int, b: int|
                        0 <= a < b < dv1.len() && dv1[a] is Some && dv1[b] is Some implies dv1[
                        a
                    ]->0.key != dv1[b]->0.key by {
                        if a == i as int {
                            assert(dv0[a] is Some && dv0[a]->0.key == kv);
                            assert(dv0[a]->0.key != dv0[b]->0.key);
                        } else if b == i as int {
                            assert(dv0[b] is Some && dv0[b]->0.key == kv);
                            assert(dv0[a]->0.key != dv0[b]->0.key);
                        } else {
                            assert(dv0[a]->0.key != dv0[b]->0.key);
                        }
                    };
                }
                Ok(true)
            },
            Option::None => {
                if self.docs.len() < (u32::MAX as usize) {
                    let e = DocEntry { key, record, tokens };
                    self.docs.push(Some(e));
                    proof {
                        let dv1 = self.view_docs();
                        assert(dv1 =~= dv0.push(Option::Some(entry)));
                        assert(dv1 =~= spec_add(dv0, sv, kv, rv));
                        assert forall|a: int, b: int|
                            0 <= a < b < dv1.len() && dv1[a] is Some && dv1[b] is Some implies dv1[
                            a
                        ]->0.key != dv1[b]->0.key by {
                            if b == dv0.len() as int {
                                assert(!(dv0[a] is Some && dv0[a]->0.key == kv));
                            } else {
                                assert(dv0[a]->0.key != dv0[b]->0.key);
                            }
                        };
                    }
                    Ok(false)
                } else {
                    proof {
                        assert(spec_add(dv0, sv, kv, rv).len() == dv0.len() + 1);
                    }
                    Err(Error::StorageIo)
                }
            },
        }
    }

    /// Delete the document with the given key, if present.
    pub fn apply_del(&mut self, key: &Vec<char>) -> (r: bool)
        requires
            old(self).wf(),
        ensures
            final(self).wf(),
            settings_view(final(self).settings) == settings_view(old(self).settings),
            final(self).view_docs() == spec_del(old(self).view_docs(), key@),
            r == spec_has_key(old(self).view_docs(), key@),
    {
        let ghost dv0 = self.view_docs();
        match self.find_key(key) {
            Option::Some(i) => {
                self.docs[i] = None;
                proof {
                    let dv1 = self.view_docs();
                    assert(dv1 =~= dv0.update(i as int, Option::None));
                    assert(dv1 =~= spec_del(dv0, key@));
                    assert forall|a: int, b: int|
                        0 <= a < b < dv1.len() && dv1[a] is Some && dv1[b] is Some implies dv1[
                        a
                    ]->0.key != dv1[b]->0.key by {
                        assert(dv0[a]->0.key != dv0[b]->0.key);
                    };
                }
                true
            },
            Option::None => false,
        }
    }
}

// --- the builder ---

/// What a single document can be reproached with.
pub open spec fn spec_doc_issue(pk: Seq<char>, rec: Seq<(Seq<char>, SpecFieldValue)>) -> Option<
    Error,
> {
    if !spec_distinct_names(rec) {
        Option::Some(Error::InvalidDocumentShape)
    } else if spec_record_key(pk, rec) is None {
        Option::Some(Error::MissingPrimaryKey)
    } else {
        Option::None
    }
}

/// The first reproach of a batch, in document order.
pub open spec fn spec_batch_issue(
    pk: Seq<char>,
    recs: Seq<Seq<(Seq<char>, SpecFieldValue)>>,
) -> Option<Error>
    decreases recs.len(),
{
    if recs.len() == 0 {
        Option::None
    } else if spec_doc_issue(pk, recs.first()) is Some {
        spec_doc_issue(pk, recs.first())
    } else {
        spec_batch_issue(pk, recs.drop_first())
    }
}

/// The key a valid record carries.
pub open spec fn spec_key_of(pk: Seq<char>, rec: Seq<(Seq<char>, SpecFieldValue)>) -> Seq<char> {
    match spec_record_key(pk, rec) {
        Option::Some(k) => k,
        Option::None => Seq::empty(),
    }
}

/// The add operations a valid batch buffers, in document order.
pub open spec fn spec_batch_ops(
    pk: Seq<char>,
    recs: Seq<Seq<(Seq<char>, SpecFieldValue)>>,
) -> Seq<SpecDocOp> {
    recs.map_values(|r: Seq<(Seq<char>, SpecFieldValue)>| SpecDocOp::Add {
        key: spec_key_of(pk, r),
        rec: r,
    })
}

/// Validation state of one record of a batch: it passed validation and its
/// key was read.
pub open spec fn key_ok(
    pk: Seq<char>,
    rv: Seq<Seq<(Seq<char>, SpecFieldValue)>>,
    keys: Seq<Vec<char>>,
    j: int,
) -> bool {
    0 <= j < rv.len() && 0 <= j < keys.len() && spec_doc_issue(pk, rv[j]) is None && keys[j]@
        == spec_key_of(pk, rv[j])
}

/// Correspondence between the not-yet-buffered tail of a batch and its keys.
pub open spec fn pending_ok(
    pk: Seq<char>,
    rv: Seq<Seq<(Seq<char>, SpecFieldValue)>>,
    batch: Seq<DocRecord>,
    keys: Seq<Vec<char>>,
    j: int,
    m: int,
) -> bool {
    0 <= m + j < rv.len() && 0 <= m < batch.len() && 0 <= m < keys.len() && rec_view(batch[m])
        == rv[m + j] && spec_doc_issue(pk, rv[m + j]) is None && keys[m]@ == spec_key_of(
        pk,
        rv[m + j],
    )
}

/// Read the external key of a record from its primary key field.
pub fn extract_key(pk: &Vec<char>, rec: &DocRecord) -> (r: Option<Vec<char>>)
    requires
        spec_distinct_names(rec_view(*rec)),
    ensures
        match r {
            Option::Some(k) => spec_record_key(pk@, rec_view(*rec)) == Option::Some(k@),
            Option::None => spec_record_key(pk@, rec_view(*rec)) is None,
        },
{
    match field_lookup(rec, pk) {
        Option::Some(i) => match &rec.fields[i].1 {
            FieldValue::Str(s) => Some(crate::query::clone_chars(s)),
            FieldValue::Int(n) => Some(i64_chars(*n)),
        },
        Option::None => None,
    }
}

/// A batch builder: buffered add and delete operations, applied to the index
/// in call order by `execute`.
pub struct IndexerBuilder {
    pub primary_key: Vec<char>,
    pub ops: Vec<DocOp>,
}

impl IndexerBuilder {
    pub open spec fn ops_seq(self) -> Seq<SpecDocOp> {
        ops_view(self.ops@)
    }

    /// Buffered add operations hold only validated records.
    pub open spec fn wf(self) -> bool {
        forall|j: int|
            0 <= j < self.ops_seq().len() && self.ops_seq()[j] is Add ==> spec_distinct_names(
                #[trigger] self.ops_seq()[j]->Add_rec,
            )
    }

    /// Begin a batch against the given index.
    pub fn new(index: &Index) -> (r: Self)
        ensures
            r.wf(),
            r.primary_key@ == settings_view(index.settings).primary_key,
            r.ops_seq() == Seq::<SpecDocOp>::empty(),
    {
        let r = IndexerBuilder {
            primary_key: crate::query::clone_chars(&index.settings.primary_key),
            ops: Vec::new(),
        };
        proof {
            assert(r.ops_seq() =~= Seq::<SpecDocOp>::empty());
        }
        r
    }

    /// Buffer a batch of documents to add or replace.  A document that
    /// repeats a field name or lacks the primary key field fails the whole
    /// call, and the buffer is unchanged; otherwise every document of the
    /// batch is buffered and the count is returned.
    pub fn add_documents(&mut self, batch: Vec<DocRecord>) -> (r: Result<u64, Error>)
        requires
            old(self).wf(),
        ensures
            final(self).wf(),
            final(self).primary_key@ == old(self).primary_key@,
            r is Ok <==> spec_batch_issue(
                old(self).primary_key@,
                batch@.map_values(|d: DocRecord| rec_view(d)),
            ) is None,
            match r {
                Result::Ok(n) => n == batch@.len() && final(self).ops_seq() == old(self).ops_seq()
                    + spec_batch_ops(
                    old(self).primary_key@,
                    batch@.map_values(|d: DocRecord| rec_view(d)),
                ),
                Result::Err(e) => Option::Some(e) == spec_batch_issue(
                    old(self).primary_key@,
                    batch@.map_values(|d: DocRecord| rec_view(d)),
                ) && final(self).ops_seq() == old(self).ops_seq(),
            },
    {
        let ghost pk = self.primary_key@;
        let ghost rv = batch@.map_values(|d: DocRecord| rec_view(d));
        let n = batch.len();
        let mut keys: Vec<Vec<char>> = Vec::new();
        let mut i: usize = 0;
        proof {
            assert(rv.skip(0) =~= rv);
        }
        while i < n
            invariant
                n == batch@.len(),
                *self == *old(self),
                self.wf(),
                rv == batch@.map_values(|d: DocRecord| rec_view(d)),
                pk == self.primary_key@,
                i <= n,
                keys@.len() == i,
                forall|j: int| 0 <= j < i ==> #[trigger] key_ok(pk, rv, keys@, j),
                spec_batch_issue(pk, rv) == spec_batch_issue(pk, rv.skip(i as int)),
            decreases n - i,
        {
            proof {
                assert(rv[i as int] == rec_view(batch@[i as int]));
                assert(rv.skip(i as int).first() == rv[i as int]);
                assert(rv.skip(i as int).drop_first() =~= rv.skip(i + 1));
            }
            if !distinct_names(&batch[i]) {
                proof {
                    assert(spec_doc_issue(pk, rv[i as int]) == Option::Some(
                        Error::InvalidDocumentShape));
                }
                return Err(Error::InvalidDocumentShape);
            }
            match extract_key(&self.primary_key, &batch[i]) {
                Option::None => {
                    proof {
                        assert(spec_doc_issue(pk, rv[i as int]) == Option::Some(
                            Error::MissingPrimaryKey));
                    }
                    return Err(Error::MissingPrimaryKey);
                },
                Option::Some(k) => {
                    let ghost pre_keys = keys@;
                    keys.push(k);
                    proof {
                        assert(spec_doc_issue(pk, rv[i as int]) is None);
                        assert(key_ok(pk, rv, keys@, i as int));
                        assert forall|j: int| 0 <= j < i + 1 implies #[trigger] key_ok(
                            pk,
                            rv,
                            keys@,
                            j,
                        ) by {
                            if j < i as int {
                                assert(key_ok(pk, rv, pre_keys, j));
                                assert(keys@[j] == pre_keys[j]);
                            }
                        };
                        assert(spec_batch_issue(pk, rv.skip(i as int)) == spec_batch_issue(
                            pk, rv.skip(i + 1)));
                    }
                },
            }
            i = i + 1;
        }
        proof {
            assert(rv.skip(n as int) =~= Seq::<Seq<(Seq<char>, SpecFieldValue)>>::empty());
        }
        let mut batch = batch;
        let mut keys = keys;
        let ghost ops0 = self.ops_seq();
        proof {
            assert forall|m: int| 0 <= m < n implies #[trigger] pending_ok(
                pk,
                rv,
                batch@,
                keys@,
                0,
                m,
            ) by {
                assert(key_ok(pk, rv, keys@, m));
                assert(rv[m] == rec_view(batch@[m]));
            };
            assert(self.ops_seq() =~= ops0 + spec_batch_ops(pk, rv.take(0)));
        }
        let mut j: usize = 0;
        while j < n
            invariant
                n == rv.len(),
                pk == self.primary_key@,
                j <= n,
                batch@.len() == n - j,
                keys@.len() == n - j,
                forall|m: int|
                    0 <= m < n - j ==> #[trigger] pending_ok(pk, rv, batch@, keys@, j as int, m),
                self.ops_seq() == ops0 + spec_batch_ops(pk, rv.take(j as int)),
                self.primary_key@ == old(self).primary_key@,
                self.wf(),
            decreases n - j,
        {
            proof {
                assert(pending_ok(pk, rv, batch@, keys@, j as int, 0));
            }
            let ghost pre_batch = batch@;
            let ghost pre_keys = keys@;
            let k = keys.remove(0);
            let rec = batch.remove(0);
            let ghost pre_ops = self.ops_seq();
            proof {
                assert(k@ == spec_key_of(pk, rv[j as int]));
                assert(rec_view(rec) == rv[j as int]);
                assert(spec_doc_issue(pk, rv[j as int]) is None);
                assert(spec_distinct_names(rv[j as int]));
            }
            self.ops.push(DocOp::Add { key: k, record: rec });
            proof {
                assert(self.ops_seq() =~= pre_ops.push(op_view(self.ops@[self.ops@.len() - 1])));
                assert(spec_batch_ops(pk, rv.take(j + 1)) =~= spec_batch_ops(
                    pk,
                    rv.take(j as int),
                ).push(SpecDocOp::Add { key: spec_key_of(pk, rv[j as int]), rec: rv[j as int] }));
                assert(self.ops_seq() =~= ops0 + spec_batch_ops(pk, rv.take(j + 1)));
                assert forall|m: int| 0 <= m < n - j - 1 implies #[trigger] pending_ok(
                    pk,
                    rv,
                    batch@,
                    keys@,
                    j + 1,
                    m,
                ) by {
                    assert(pending_ok(pk, rv, pre_batch, pre_keys, j as int, m + 1));
                    assert(batch@[m] == pre_batch[m + 1]);
                    assert(keys@[m] == pre_keys[m + 1]);
                };
                assert forall|t: int|
                    0 <= t < self.ops_seq().len() && self.ops_seq()[t] is Add implies
                    spec_distinct_names(#[trigger] self.ops_seq()[t]->Add_rec) by {
                    if t < pre_ops.len() {
                        assert(pre_ops[t] == self.ops_seq()[t]);
                    }
                };
            }
            j = j + 1;
        }
        proof {
            assert(rv.take(n as int) =~= rv);
        }
        Ok(n as u64)
    }

    /// Buffer a batch of primary key values to delete.  Unknown keys are
    /// silently ignored when the batch is applied.
    pub fn remove_documents(&mut self, keys: &Vec<String>) -> (r: u64)
        requires
            old(self).wf(),
        ensures
            final(self).wf(),
            final(self).primary_key@ == old(self).primary_key@,
            r == keys@.len(),
            final(self).ops_seq() == old(self).ops_seq() + keys@.map_values(
                |k: String| SpecDocOp::Del { key: k@ },
            ),
    {
        let ghost dels = keys@.map_values(|k: String| SpecDocOp::Del { key: k@ });
        let ghost ops0 = self.ops_seq();
        let n = keys.len();
        let mut i: usize = 0;
        proof {
            assert(self.ops_seq() =~= ops0 + dels.take(0));
        }
        while i < n
            invariant
                n == keys@.len(),
                dels == keys@.map_values(|k: String| SpecDocOp::Del { key: k@ }),
                i <= n,
                self.primary_key@ == old(self).primary_key@,
                self.ops_seq() == ops0 + dels.take(i as int),
                self.wf(),
            decreases n - i,
        {
            let ghost pre_ops = self.ops_seq();
            let kc = str_to_chars(keys[i].as_str());
            self.ops.push(DocOp::Del { key: kc });
            proof {
                assert(self.ops_seq() =~= pre_ops.push(op_view(self.ops@[self.ops@.len() - 1])));
                assert(self.ops_seq() =~= ops0 + dels.take(i + 1));
            }
            i = i + 1;
        }
        proof {
            assert(dels.take(n as int) =~= dels);
        }
        n as u64
    }
}

impl Index {
    /// Fetch the records of the given documents.  The call succeeds exactly
    /// when every identifier names a live document; a dangling identifier is
    /// a storage-level fault.
    pub fn documents(&self, ids: &Vec<u32>) -> (r: Result<Vec<DocRecord>, Error>)
        ensures
            r is Ok <==> (forall|m: int| 0 <= m < ids@.len() ==> self.live(ids@[m] as int)),
            match r {
                Result::Ok(recs) => recs@.len() == ids@.len() && forall|m: int|
                    0 <= m < ids@.len() ==> rec_view(#[trigger] recs@[m]) == self.view_docs()[
                        ids@[m] as int
                    ]->0.record,
                Result::Err(e) => e == Error::StorageIo,
            },
    {
        let mut recs: Vec<DocRecord> = Vec::new();
        let mut m: usize = 0;
        while m < ids.len()
            invariant
                m <= ids@.len(),
                recs@.len() == m,
                forall|t: int| 0 <= t < m ==> self.live(ids@[t] as int),
                forall|t: int|
                    0 <= t < m ==> rec_view(#[trigger] recs@[t]) == self.view_docs()[
                        ids@[t] as int
                    ]->0.record,
            decreases ids@.len() - m,
        {
            match self.document(ids[m]) {
                Option::Some(rec) => {
                    recs.push(rec);
                },
                Option::None => {
                    return Err(Error::StorageIo);
                },
            }
            m = m + 1;
        }
        Ok(recs)
    }
}

/// The report of one applied batch.
pub struct Report {
    pub added: u64,
    pub removed: u64,
}

/// Applying a concatenation applies the parts in order.
pub proof fn lemma_apply_concat(
    docs: Seq<Option<SpecDocEntry>>,
    searchable: Option<Seq<Seq<char>>>,
    a: Seq<SpecDocOp>,
    b: Seq<SpecDocOp>,
)
    ensures
        spec_apply_ops(docs, searchable, a + b) == spec_apply_ops(
            spec_apply_ops(docs, searchable, a),
            searchable,
            b,
        ),
    decreases b.len(),
{
    if b.len() == 0 {
        assert(a + b =~= a);
    } else {
        lemma_apply_concat(docs, searchable, a, b.drop_last());
        assert((a + b).drop_last() =~= a + b.drop_last());
        assert((a + b).last() == b.last());
    }
}

impl IndexerBuilder {
    /// Apply the buffered operations to the index in call order.  The call
    /// succeeds unless the store runs out of identifiers; the caller commits
    /// or aborts the enclosing transaction.
    pub fn execute(self, index: &mut Index) -> (r: Result<Report, Error>)
        requires
            old(index).wf(),
            self.wf(),
        ensures
            final(index).wf(),
            settings_view(final(index).settings) == settings_view(old(index).settings),
            r is Ok <==> spec_apply_ops(
                old(index).view_docs(),
                old(index).searchable_view(),
                self.ops_seq(),
            ).len() <= u32::MAX,
            match r {
                Result::Ok(rep) => final(index).view_docs() == spec_apply_ops(
                    old(index).view_docs(),
                    old(index).searchable_view(),
                    self.ops_seq(),
                ) && rep.added == spec_added(self.ops_seq()) && rep.removed == spec_removed(
                    old(index).view_docs(),
                    old(index).searchable_view(),
                    self.ops_seq(),
                ),
                Result::Err(e) => e == Error::StorageIo,
            },
    {
        let ghost ops = self.ops_seq();
        let r = self.execute_with_stop(index, None);
        proof {
            assert(ops.take(ops.len() as int) =~= ops);
        }
        r
    }

    /// Apply the buffered operations, consulting a cooperative stop budget
    /// between document operations: once `stop_after` operations have been
    /// applied the batch ends with `Cancelled` and nothing further is
    /// applied.  The caller then aborts the enclosing transaction, leaving
    /// the store untouched, and may re-issue the whole batch later.
    pub fn execute_with_stop(self, index: &mut Index, stop_after: Option<u64>) -> (r: Result<
        Report,
        Error,
    >)
        requires
            old(index).wf(),
            self.wf(),
        ensures
            final(index).wf(),
            settings_view(final(index).settings) == settings_view(old(index).settings),
            match r {
                Result::Ok(rep) => (stop_after is Some ==> stop_after->0
                    >= self.ops_seq().len()) && final(index).view_docs() == spec_apply_ops(
                    old(index).view_docs(),
                    old(index).searchable_view(),
                    self.ops_seq(),
                ) && spec_apply_ops(
                    old(index).view_docs(),
                    old(index).searchable_view(),
                    self.ops_seq(),
                ).len() <= u32::MAX && rep.added == spec_added(self.ops_seq()) && rep.removed
                    == spec_removed(
                    old(index).view_docs(),
                    old(index).searchable_view(),
                    self.ops_seq(),
                ),
                Result::Err(e) => e == Error::StorageIo || e == Error::Cancelled,
            },
            r == Result::<Report, Error>::Err(Error::Cancelled) <==> (stop_after is Some
                && stop_after->0 < self.ops_seq().len() && spec_apply_ops(
                old(index).view_docs(),
                old(index).searchable_view(),
                self.ops_seq().take(stop_after->0 as int),
            ).len() <= u32::MAX),
            r == Result::<Report, Error>::Err(Error::Cancelled) ==> final(index).view_docs()
                == spec_apply_ops(
                old(index).view_docs(),
                old(index).searchable_view(),
                self.ops_seq().take(stop_after->0 as int),
            ),
            r is Ok ==> spec_apply_ops(
                old(index).view_docs(),
                old(index).searchable_view(),
                self.ops_seq(),
            ).len() <= u32::MAX,
            (r == Result::<Report, Error>::Err(Error::StorageIo)) ==> spec_apply_ops(
                old(index).view_docs(),
                old(index).searchable_view(),
                self.ops_seq(),
            ).len() > u32::MAX,
    {
        let ghost dv0 = index.view_docs();
        let ghost sv = index.searchable_view();
        let ghost all_ops = self.ops_seq();
        let n = self.ops.len();
        let mut added: u64 = 0;
        let mut removed: u64 = 0;
        let mut i: usize = 0;
        while i < n
            invariant
                n == all_ops.len(),
                all_ops == self.ops_seq(),
                dv0 == old(index).view_docs(),
                sv == old(index).searchable_view(),
                self.wf(),
                i <= n,
                index.wf(),
                settings_view(index.settings) == settings_view(old(index).settings),
                sv == index.searchable_view(),
                index.view_docs() == spec_apply_ops(dv0, sv, all_ops.take(i as int)),
                added == spec_added(all_ops.take(i as int)),
                removed == spec_removed(dv0, sv, all_ops.take(i as int)),
                added <= i,
                removed <= i,
                stop_after is Some ==> i <= stop_after->0,
            decreases n - i,
        {
            match stop_after {
                Option::Some(budget) => {
                    if (i as u64) == budget {
                        return Err(Error::Cancelled);
                    }
                },
                Option::None => {},
            }
            proof {
                assert(all_ops.take(i + 1).drop_last() =~= all_ops.take(i as int));
                assert(all_ops.take(i + 1).last() == all_ops[i as int]);
                assert(op_view(self.ops@[i as int]) == all_ops[i as int]);
            }
            match &self.ops[i] {
                DocOp::Add { key, record } => {
                    proof {
                        assert(all_ops[i as int] is Add);
                        assert(all_ops[i as int]->Add_rec == rec_view(*record));
                        assert(spec_distinct_names(rec_view(*record)));
                    }
                    let ghost cur = index.view_docs();
                    let ghost kv = key@;
                    let ghost rv = rec_view(*record);
                    let key2 = crate::query::clone_chars(key);
                    let record2 = clone_record(record);
                    match index.apply_add(key2, record2) {
                        Result::Ok(_) => {
                            added = added + 1;
                        },
                        Result::Err(_) => {
                            proof {
                                assert(spec_apply_ops(dv0, sv, all_ops.take(i + 1)) == spec_add(
                                    cur, sv, kv, rv));
                                assert(spec_add(cur, sv, kv, rv).len() > u32::MAX);
                                lemma_apply_concat(dv0, sv, all_ops.take(i + 1), all_ops.skip(
                                    i + 1));
                                assert(all_ops.take(i + 1) + all_ops.skip(i + 1) =~= all_ops);
                                lemma_apply_len(
                                    spec_apply_ops(dv0, sv, all_ops.take(i + 1)),
                                    sv,
                                    all_ops.skip(i + 1),
                                );
                                assert(spec_apply_ops(dv0, sv, all_ops).len() > u32::MAX);
                                if stop_after is Some {
                                    let b = stop_after->0 as int;
                                    if b < all_ops.len() {
                                        assert(i + 1 <= b);
                                        lemma_apply_concat(
                                            dv0,
                                            sv,
                                            all_ops.take(i + 1),
                                            all_ops.take(b).skip(i + 1),
                                        );
                                        assert(all_ops.take(i + 1) + all_ops.take(b).skip(
                                            i + 1) =~= all_ops.take(b));
                                        lemma_apply_len(
                                            spec_apply_ops(dv0, sv, all_ops.take(i + 1)),
                                            sv,
                                            all_ops.take(b).skip(i + 1),
                                        );
                                        assert(spec_apply_ops(dv0, sv, all_ops.take(b)).len()
                                            > u32::MAX);
                                    }
                                }
                            }
                            return Err(Error::StorageIo);
                        },
                    }
                },
                DocOp::Del { key } => {
                    let hit = index.apply_del(key);
                    if hit {
                        removed = removed + 1;
                    }
                },
            }
            i = i + 1;
        }
        proof {
            assert(all_ops.take(n as int) =~= all_ops);
        }
        Ok(Report { added, removed })
    }
}

} // verus!
