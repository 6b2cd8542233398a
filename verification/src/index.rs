use vstd::prelude::*;
use crate::text::{
    i64_chars, sat_add32, spec_i64_chars, spec_sat_add32, spec_tokens, token_views, tokenize,
    Token,
};

verus! {

// The index: committed documents and the postings derived from them.
//
// Each live document slot holds the document's external key, its record and
// the tokens derived from its searchable fields.  The mapping from a term to
// the documents and positions where it occurs — the postings store that the
// query engine reads — is the spec function `occ`; the well-formedness
// predicate `wf` pins every slot's tokens to the tokenization of its record,
// and keeps external keys unique.
//
// Document identifiers are dense indices into the slot vector, assigned in
// first-insertion order.  A replaced document keeps its identifier; a deleted
// document's identifier is never reused (its slot stays empty), which keeps
// identifiers stable for their lifetime.

/// A scalar field value of a document record.
pub enum FieldValue {
    Str(Vec<char>),
    Int(i64),
}

pub ghost enum SpecFieldValue {
    Str(Seq<char>),
    Int(int),
}

impl FieldValue {
    pub open spec fn view(&self) -> SpecFieldValue {
        match self {
            FieldValue::Str(s) => SpecFieldValue::Str(s@),
            FieldValue::Int(n) => SpecFieldValue::Int(*n as int),
        }
    }
}

/// A document record: named scalar fields in order.
pub struct DocRecord {
    pub fields: Vec<(Vec<char>, FieldValue)>,
}

pub open spec fn rec_view(r: DocRecord) -> Seq<(Seq<char>, SpecFieldValue)> {
    r.fields@.map_values(|f: (Vec<char>, FieldValue)| (f.0@, f.1.view()))
}

impl DocRecord {
    pub fn new() -> (r: Self)
        ensures
            rec_view(r) == Seq::<(Seq<char>, SpecFieldValue)>::empty(),
    {
        let r = DocRecord { fields: Vec::new() };
        proof {
            assert(rec_view(r) =~= Seq::<(Seq<char>, SpecFieldValue)>::empty());
        }
        r
    }

    pub fn add_str_field(&mut self, name: &str, value: &str)
        ensures
            rec_view(*final(self)) == rec_view(*old(self)).push(
                (name@, SpecFieldValue::Str(value@)),
            ),
    {
        let n = crate::text::str_to_chars(name);
        let v = crate::text::str_to_chars(value);
        let ghost old_view = rec_view(*self);
        self.fields.push((n, FieldValue::Str(v)));
        proof {
            assert(rec_view(*self) =~= old_view.push((name@, SpecFieldValue::Str(value@))));
        }
    }

    pub fn add_int_field(&mut self, name: &str, value: i64)
        ensures
            rec_view(*final(self)) == rec_view(*old(self)).push(
                (name@, SpecFieldValue::Int(value as int)),
            ),
    {
        let n = crate::text::str_to_chars(name);
        let ghost old_view = rec_view(*self);
        self.fields.push((n, FieldValue::Int(value)));
        proof {
            assert(rec_view(*self) =~= old_view.push((name@, SpecFieldValue::Int(value as int))));
        }
    }
}

/// Copy a field value.
pub fn clone_field_value(v: &FieldValue) -> (r: FieldValue)
    ensures
        r.view() == v.view(),
{
    match v {
        FieldValue::Str(s) => FieldValue::Str(crate::query::clone_chars(s)),
        FieldValue::Int(n) => FieldValue::Int(*n),
    }
}

/// Copy a document record.
pub fn clone_record(r: &DocRecord) -> (c: DocRecord)
    ensures
        rec_view(c) == rec_view(*r),
{
    let mut fields: Vec<(Vec<char>, FieldValue)> = Vec::new();
    let mut i: usize = 0;
    while i < r.fields.len()
        invariant
            i <= r.fields@.len(),
            fields@.len() == i,
            forall|j: int|
                0 <= j < i ==> (#[trigger] fields@[j]).0@ == rec_view(*r)[j].0 && fields@[
                    j
                ].1.view() == rec_view(*r)[j].1,
        decreases r.fields@.len() - i,
    {
        let name = crate::query::clone_chars(&r.fields[i].0);
        let value = clone_field_value(&r.fields[i].1);
        fields.push((name, value));
        i = i + 1;
    }
    let c = DocRecord { fields };
    proof {
        assert(rec_view(c) =~= rec_view(*r));
    }
    c
}

/// Distinct field names forbid two fields at different positions from
/// sharing a name.
proof fn lemma_distinct_pair(rec: Seq<(Seq<char>, SpecFieldValue)>, a: int, b: int)
    requires
        spec_distinct_names(rec),
        0 <= a < b < rec.len(),
    ensures
        rec[a].0 != rec[b].0,
{
}

/// A ranking criterion of the cascade.
#[derive(Clone, Copy, PartialEq, Eq, Structural)]
pub enum Criterion {
    Words,
    Proximity,
}

/// Index settings: the primary key field, the searchable fields (all fields
/// when absent) and the ordered active ranking criteria.
pub struct Settings {
    pub primary_key: Vec<char>,
    pub searchable: Option<Vec<Vec<char>>>,
    pub criteria: Vec<Criterion>,
}

pub ghost struct SpecSettings {
    pub primary_key: Seq<char>,
    pub searchable: Option<Seq<Seq<char>>>,
    pub criteria: Seq<Criterion>,
}

pub open spec fn settings_view(s: Settings) -> SpecSettings {
    SpecSettings {
        primary_key: s.primary_key@,
        searchable: match s.searchable {
            Option::None => Option::None,
            Option::Some(v) => Option::Some(crate::query::word_views(v@)),
        },
        criteria: s.criteria@,
    }
}

impl Settings {
    /// Settings with the given primary key field, every field searchable and
    /// the full default criteria cascade.
    pub fn new(primary_key: &str) -> (r: Self)
        ensures
            settings_view(r).primary_key == primary_key@,
            settings_view(r).searchable is None,
            settings_view(r).criteria == seq![Criterion::Words, Criterion::Proximity],
    {
        let pk = crate::text::str_to_chars(primary_key);
        let mut criteria: Vec<Criterion> = Vec::new();
        criteria.push(Criterion::Words);
        criteria.push(Criterion::Proximity);
        proof {
            assert(criteria@ =~= seq![Criterion::Words, Criterion::Proximity]);
        }
        Settings { primary_key: pk, searchable: None, criteria }
    }

    /// Restrict the searchable fields to the named ones, in the given order.
    pub fn set_searchable(&mut self, fields: Vec<&str>)
        ensures
            settings_view(*final(self)).searchable == Option::Some(
                fields@.map_values(|f: &str| f@),
            ),
            settings_view(*final(self)).primary_key == settings_view(*old(self)).primary_key,
            settings_view(*final(self)).criteria == settings_view(*old(self)).criteria,
    {
        let mut v: Vec<Vec<char>> = Vec::new();
        let mut i: usize = 0;
        proof {
            assert(crate::query::word_views(v@) =~= fields@.map_values(|f: &str| f@).take(0));
        }
        while i < fields.len()
            invariant
                i <= fields@.len(),
                crate::query::word_views(v@) == fields@.map_values(|f: &str| f@).take(i as int),
            decreases fields@.len() - i,
        {
            let ghost old_v = v@;
            v.push(crate::text::str_to_chars(fields[i]));
            proof {
                assert(crate::query::word_views(v@) =~= crate::query::word_views(old_v).push(
                    v@[v@.len() - 1]@));
                assert(crate::query::word_views(v@) =~= fields@.map_values(|f: &str| f@).take(
                    i + 1));
            }
            i = i + 1;
        }
        proof {
            let m = fields@.map_values(|f: &str| f@);
            assert(m.take(m.len() as int) =~= m);
        }
        self.searchable = Some(v);
    }

    /// Replace the ordered list of active ranking criteria.
    pub fn set_criteria(&mut self, criteria: Vec<Criterion>)
        ensures
            settings_view(*final(self)).criteria == criteria@,
            settings_view(*final(self)).primary_key == settings_view(*old(self)).primary_key,
            settings_view(*final(self)).searchable == settings_view(*old(self)).searchable,
    {
        self.criteria = criteria;
    }
}

// --- tokenization of records ---

/// Base position of the `k`-th searchable field.  Fields are spaced far
/// apart so that words of different fields never count as close.
pub open spec fn spec_field_base(k: nat) -> u32 {
    if k < 65536 {
        (k * 65536) as u32
    } else {
        0xFFFF0000u32
    }
}

pub fn field_base(k: usize) -> (r: u32)
    ensures
        r == spec_field_base(k as nat),
{
    if k < 65536 {
        (k as u32) * 65536
    } else {
        0xFFFF0000u32
    }
}

/// Tokens of one field value, shifted to the field's base position.
pub open spec fn spec_field_tokens(v: SpecFieldValue, base: u32) -> Seq<(Seq<char>, u32)> {
    match v {
        SpecFieldValue::Str(s) => spec_tokens(s).map_values(
            |t: (Seq<char>, u32)| (t.0, spec_sat_add32(base, t.1)),
        ),
        SpecFieldValue::Int(n) => seq![(spec_i64_chars(n), base)],
    }
}

/// The searchable field values of a record, in indexing order.
pub open spec fn spec_source_fields(
    searchable: Option<Seq<Seq<char>>>,
    rec: Seq<(Seq<char>, SpecFieldValue)>,
) -> Seq<Option<SpecFieldValue>> {
    match searchable {
        Option::None => rec.map_values(|f: (Seq<char>, SpecFieldValue)| Option::Some(f.1)),
        Option::Some(names) => names.map_values(|nm: Seq<char>| spec_field_lookup(rec, nm)),
    }
}

/// A field of the record carrying the given name, if any.  Records the
/// index stores have passed validation, so their field names are distinct
/// and the chosen field is the only one.
pub open spec fn spec_field_lookup(
    rec: Seq<(Seq<char>, SpecFieldValue)>,
    nm: Seq<char>,
) -> Option<SpecFieldValue> {
    if exists|i: int| 0 <= i < rec.len() && rec[i].0 == nm {
        Option::Some(rec[choose|i: int| 0 <= i < rec.len() && rec[i].0 == nm].1)
    } else {
        Option::None
    }
}

/// Tokens of a sequence of field values, each at its field's base position.
pub open spec fn spec_fields_tokens(vals: Seq<Option<SpecFieldValue>>) -> Seq<(Seq<char>, u32)>
    decreases vals.len(),
{
    if vals.len() == 0 {
        Seq::empty()
    } else {
        spec_fields_tokens(vals.drop_last()) + match vals.last() {
            Option::None => Seq::<(Seq<char>, u32)>::empty(),
            Option::Some(v) => spec_field_tokens(v, spec_field_base((vals.len() - 1) as nat)),
        }
    }
}

/// All tokens a record contributes to the index under the given settings.
pub open spec fn spec_record_tokens(
    searchable: Option<Seq<Seq<char>>>,
    rec: Seq<(Seq<char>, SpecFieldValue)>,
) -> Seq<(Seq<char>, u32)> {
    spec_fields_tokens(spec_source_fields(searchable, rec))
}

/// Field names of a record are pairwise distinct.
pub open spec fn spec_distinct_names(rec: Seq<(Seq<char>, SpecFieldValue)>) -> bool {
    forall|i: int, j: int| 0 <= i < j < rec.len() ==> rec[i].0 != rec[j].0
}

/// The external key a record carries, read from the primary key field.
pub open spec fn spec_record_key(pk: Seq<char>, rec: Seq<(Seq<char>, SpecFieldValue)>) -> Option<
    Seq<char>,
> {
    match spec_field_lookup(rec, pk) {
        Option::None => Option::None,
        Option::Some(SpecFieldValue::Str(s)) => Option::Some(s),
        Option::Some(SpecFieldValue::Int(n)) => Option::Some(spec_i64_chars(n)),
    }
}

/// Check that the field names of a record are pairwise distinct.
pub fn distinct_names(rec: &DocRecord) -> (r: bool)
    ensures
        r == spec_distinct_names(rec_view(*rec)),
{
    let n = rec.fields.len();
    let mut i: usize = 0;
    while i < n
        invariant
            n == rec.fields@.len(),
            i <= n,
            forall|a: int, b: int|
                0 <= a < b < n && a < i ==> rec_view(*rec)[a].0 != rec_view(*rec)[b].0,
        decreases n - i,
    {
        let mut j: usize = i + 1;
        while j < n
            invariant
                n == rec.fields@.len(),
                i < n,
                i < j <= n,
                forall|b: int| i < b < j ==> rec_view(*rec)[i as int].0 != rec_view(*rec)[b].0,
            decreases n - j,
        {
            if crate::text::chars_eq(&rec.fields[i].0, &rec.fields[j].0) {
                proof {
                    let rv = rec_view(*rec);
                    assert(rv[i as int].0 == rv[j as int].0);
                }
                return false;
            }
            j = j + 1;
        }
        i = i + 1;
    }
    true
}

/// Look up the field with the given name.  Returns its position.
pub fn field_lookup(rec: &DocRecord, nm: &Vec<char>) -> (r: Option<usize>)
    requires
        spec_distinct_names(rec_view(*rec)),
    ensures
        match r {
            Option::Some(i) => i < rec.fields@.len() && rec_view(*rec)[i as int].0 == nm@
                && spec_field_lookup(rec_view(*rec), nm@) == Option::Some(
                rec_view(*rec)[i as int].1,
            ),
            Option::None => spec_field_lookup(rec_view(*rec), nm@) is None,
        },
{
    let n = rec.fields.len();
    let mut i: usize = 0;
    while i < n
        invariant
            n == rec.fields@.len(),
            i <= n,
            spec_distinct_names(rec_view(*rec)),
            forall|a: int| 0 <= a < i ==> rec_view(*rec)[a].0 != nm@,
        decreases n - i,
    {
        if crate::text::chars_eq(&rec.fields[i].0, nm) {
            proof {
                let rv = rec_view(*rec);
                assert(rv[i as int].0 == nm@);
                assert(exists|a: int| 0 <= a < rv.len() && rv[a].0 == nm@);
                let w = choose|a: int| 0 <= a < rv.len() && rv[a].0 == nm@;
                assert(0 <= w < rv.len() && rv[w].0 == nm@);
                if w < i as int {
                    lemma_distinct_pair(rv, w, i as int);
                } else if w > i as int {
                    lemma_distinct_pair(rv, i as int, w);
                }
                assert(w == i as int);
            }
            return Some(i);
        }
        i = i + 1;
    }
    None
}

/// The tokens of a record under the given searchable-field setting.
pub fn record_tokens(searchable: &Option<Vec<Vec<char>>>, rec: &DocRecord) -> (r: Vec<Token>)
    requires
        spec_distinct_names(rec_view(*rec)),
    ensures
        token_views(r@) == spec_record_tokens(
            match searchable {
                Option::None => Option::None,
                Option::Some(v) => Option::Some(crate::query::word_views(v@)),
            },
            rec_view(*rec),
        ),
{
    let ghost rv = rec_view(*rec);
    let mut out: Vec<Token> = Vec::new();
    match searchable {
        Option::None => {
            let ghost vals = spec_source_fields(Option::None, rv);
            let n = rec.fields.len();
            let mut k: usize = 0;
            proof {
                assert(token_views(out@) =~= spec_fields_tokens(vals.take(0)));
            }
            while k < n
                invariant
                    n == rec.fields@.len(),
                    rv == rec_view(*rec),
                    vals == spec_source_fields(Option::None, rv),
                    vals.len() == n,
                    k <= n,
                    token_views(out@) == spec_fields_tokens(vals.take(k as int)),
                decreases n - k,
            {
                proof {
                    assert(vals.take(k + 1).drop_last() =~= vals.take(k as int));
                    assert(vals.take(k + 1).last() == Option::Some(rv[k as int].1));
                }
                let base = field_base(k);
                push_field_tokens(&mut out, &rec.fields[k].1, base);
                k = k + 1;
            }
            proof {
                assert(vals.take(n as int) =~= vals);
            }
        },
        Option::Some(names) => {
            let ghost nv = crate::query::word_views(names@);
            let ghost vals = spec_source_fields(Option::Some(nv), rv);
            let n = names.len();
            let mut k: usize = 0;
            proof {
                assert(token_views(out@) =~= spec_fields_tokens(vals.take(0)));
            }
            while k < n
                invariant
                    n == names@.len(),
                    rv == rec_view(*rec),
                    nv == crate::query::word_views(names@),
                    spec_distinct_names(rv),
                    vals == spec_source_fields(Option::Some(nv), rv),
                    vals.len() == n,
                    k <= n,
                    token_views(out@) == spec_fields_tokens(vals.take(k as int)),
                decreases n - k,
            {
                proof {
                    assert(vals.take(k + 1).drop_last() =~= vals.take(k as int));
                    assert(vals.take(k + 1).last() == spec_field_lookup(rv, nv[k as int]));
                }
                let base = field_base(k);
                match field_lookup(rec, &names[k]) {
                    Option::Some(fi) => {
                        push_field_tokens(&mut out, &rec.fields[fi].1, base);
                    },
                    Option::None => {
                        proof {
                            assert(spec_fields_tokens(vals.take(k + 1)) =~= spec_fields_tokens(
                                vals.take(k as int)));
                        }
                    },
                }
                k = k + 1;
            }
            proof {
                assert(vals.take(n as int) =~= vals);
            }
        },
    }
    out
}

/// Append the tokens of one field value at the given base position.
fn push_field_tokens(out: &mut Vec<Token>, v: &FieldValue, base: u32)
    ensures
        token_views(final(out)@) == token_views(old(out)@) + spec_field_tokens(v.view(), base),
{
    let ghost start = token_views(old(out)@);
    match v {
        FieldValue::Str(s) => {
            let toks = tokenize(s);
            let ghost tv = spec_tokens(s@);
            let ghost mapped = tv.map_values(|t: (Seq<char>, u32)| (t.0, spec_sat_add32(base, t.1)));
            let mut i: usize = 0;
            proof {
                assert(token_views(out@) =~= start + mapped.take(0));
            }
            while i < toks.len()
                invariant
                    token_views(toks@) == tv,
                    toks@.len() == tv.len(),
                    mapped == tv.map_values(
                        |t: (Seq<char>, u32)| (t.0, spec_sat_add32(base, t.1)),
                    ),
                    i <= toks@.len(),
                    token_views(out@) == start + mapped.take(i as int),
                decreases toks@.len() - i,
            {
                let ghost old_out = out@;
                let w = crate::query::clone_chars(&toks[i].word);
                let p = sat_add32(base, toks[i].pos);
                out.push(Token { word: w, pos: p });
                proof {
                    assert(token_views(out@) =~= token_views(old_out).push(
                        (out@[out@.len() - 1].word@, out@[out@.len() - 1].pos)));
                    assert(token_views(toks@)[i as int] == (toks@[i as int].word@, toks@[
                    i as int].pos));
                    assert(token_views(out@) =~= start + mapped.take(i + 1));
                }
                i = i + 1;
            }
            proof {
                assert(mapped.take(mapped.len() as int) =~= mapped);
            }
        },
        FieldValue::Int(n) => {
            let w = i64_chars(*n);
            let ghost old_out = out@;
            out.push(Token { word: w, pos: base });
            proof {
                assert(token_views(out@) =~= token_views(old_out).push(
                    (out@[out@.len() - 1].word@, out@[out@.len() - 1].pos)));
                assert(token_views(out@) =~= start + spec_field_tokens(v.view(), base));
            }
        },
    }
}

// --- the index itself ---

/// A committed document: its external key, record and derived tokens.
pub struct DocEntry {
    pub key: Vec<char>,
    pub record: DocRecord,
    pub tokens: Vec<Token>,
}

pub ghost struct SpecDocEntry {
    pub key: Seq<char>,
    pub record: Seq<(Seq<char>, SpecFieldValue)>,
    pub toks: Seq<(Seq<char>, u32)>,
}

pub open spec fn entry_view(e: DocEntry) -> SpecDocEntry {
    SpecDocEntry { key: e.key@, record: rec_view(e.record), toks: token_views(e.tokens@) }
}

pub open spec fn docs_view(docs: Seq<Option<DocEntry>>) -> Seq<Option<SpecDocEntry>> {
    docs.map_values(
        |o: Option<DocEntry>|
            match o {
                Option::None => Option::None,
                Option::Some(e) => Option::Some(entry_view(e)),
            },
    )
}

/// Positions at which `w` occurs in the token list `toks`.
pub open spec fn spec_tok_positions(toks: Seq<(Seq<char>, u32)>, w: Seq<char>) -> Seq<u32>
    decreases toks.len(),
{
    if toks.len() == 0 {
        Seq::empty()
    } else {
        spec_tok_positions(toks.drop_last(), w) + if toks.last().0 == w {
            seq![toks.last().1]
        } else {
            Seq::<u32>::empty()
        }
    }
}

/// External keys of live documents are pairwise distinct.
pub open spec fn keys_unique(docs: Seq<Option<SpecDocEntry>>) -> bool {
    forall|i: int, j: int|
        0 <= i < j < docs.len() && docs[i] is Some && docs[j] is Some ==> docs[i]->0.key != docs[
            j
        ]->0.key
}

/// The index over committed documents.
pub struct Index {
    pub settings: Settings,
    pub docs: Vec<Option<DocEntry>>,
}

impl Index {
    pub open spec fn view_docs(self) -> Seq<Option<SpecDocEntry>> {
        docs_view(self.docs@)
    }

    pub open spec fn searchable_view(self) -> Option<Seq<Seq<char>>> {
        settings_view(self.settings).searchable
    }

    /// Well-formedness: bounded identifiers, unique keys, and every slot's
    /// tokens equal to the tokenization of its record.
    pub open spec fn wf(self) -> bool {
        &&& self.docs@.len() <= u32::MAX
        &&& keys_unique(self.view_docs())
        &&& forall|d: int|
            0 <= d < self.view_docs().len() && self.view_docs()[d] is Some
                ==> spec_distinct_names(#[trigger] self.view_docs()[d]->0.record)
                && self.view_docs()[d]->0.toks == spec_record_tokens(
                self.searchable_view(),
                self.view_docs()[d]->0.record,
            )
    }

    /// Document `d` is live: committed and not deleted.
    pub open spec fn live(self, d: int) -> bool {
        0 <= d < self.view_docs().len() && self.view_docs()[d] is Some
    }

    /// The postings read path: positions of word `w` in document `d`.
    /// Empty when `d` is not live.
    pub open spec fn occ(self, w: Seq<char>, d: int) -> Seq<u32> {
        if self.live(d) {
            spec_tok_positions(self.view_docs()[d]->0.toks, w)
        } else {
            Seq::empty()
        }
    }

    /// The documents of the term dictionary entry for `w`: exactly the live
    /// documents in which `w` occurs.  No dangling identifier can appear
    /// here: occurrences of dead documents are empty by construction.
    pub open spec fn term_docids(self, w: Seq<char>) -> Set<int> {
        Set::new(|d: int| self.occ(w, d).len() > 0)
    }

    pub fn new(settings: Settings) -> (r: Self)
        ensures
            r.wf(),
            r.view_docs() == Seq::<Option<SpecDocEntry>>::empty(),
            settings_view(r.settings) == settings_view(settings),
    {
        let r = Index { settings, docs: Vec::new() };
        proof {
            assert(r.view_docs() =~= Seq::<Option<SpecDocEntry>>::empty());
        }
        r
    }

    /// Replace the ordered list of active ranking criteria; the stored
    /// documents and their postings are untouched.
    pub fn set_criteria(&mut self, criteria: Vec<Criterion>)
        requires
            old(self).wf(),
        ensures
            final(self).wf(),
            settings_view(final(self).settings).criteria == criteria@,
            settings_view(final(self).settings).primary_key == settings_view(
                old(self).settings,
            ).primary_key,
            settings_view(final(self).settings).searchable == settings_view(
                old(self).settings,
            ).searchable,
            final(self).view_docs() == old(self).view_docs(),
    {
        self.settings.set_criteria(criteria);
    }

    /// Fetch the record of one live document.
    pub fn document(&self, id: u32) -> (r: Option<DocRecord>)
        ensures
            match r {
                Option::Some(rec) => self.live(id as int) && rec_view(rec) == self.view_docs()[
                    id as int
                ]->0.record,
                Option::None => !self.live(id as int),
            },
    {
        if (id as usize) < self.docs.len() {
            match &self.docs[id as usize] {
                Option::Some(e) => Some(clone_record(&e.record)),
                Option::None => None,
            }
        } else {
            None
        }
    }
}

/// Every identifier in the term dictionary belongs to a live document.
pub proof fn lemma_term_dictionary_live(ix: Index, w: Seq<char>, d: int)
    requires
        ix.term_docids(w).contains(d),
    ensures
        ix.live(d),
{
}

} // verus!
