use vstd::prelude::*;
use crate::index::{clone_record, settings_view, DocEntry, Index, Settings, SpecDocEntry};
use crate::indexer::Error;
use crate::query::{clone_chars, clone_words};
use crate::text::{token_views, Token};

verus! {

// The store: one committed index, any number of snapshot read transactions,
// and at most one write transaction at a time.  A transaction holds its own
// copy of the committed index, so a reader's snapshot is unaffected by later
// commits, and an aborted writer leaves the store exactly as it was.

fn clone_tokens(v: &Vec<Token>) -> (r: Vec<Token>)
    ensures
        token_views(r@) == token_views(v@),
{
    let mut r: Vec<Token> = Vec::new();
    let mut i: usize = 0;
    proof {
        assert(token_views(r@) =~= token_views(v@).take(0));
    }
    while i < v.len()
        invariant
            i <= v@.len(),
            token_views(r@) == token_views(v@).take(i as int),
        decreases v@.len() - i,
    {
        let ghost pre = r@;
        r.push(Token { word: clone_chars(&v[i].word), pos: v[i].pos });
        proof {
            assert(token_views(r@) =~= token_views(pre).push(
                (r@[r@.len() - 1].word@, r@[r@.len() - 1].pos)));
            assert(token_views(r@) =~= token_views(v@).take(i + 1));
        }
        i = i + 1;
    }
    proof {
        assert(token_views(v@).take(v@.len() as int) =~= token_views(v@));
    }
    r
}

fn clone_settings(s: &Settings) -> (r: Settings)
    ensures
        settings_view(r) == settings_view(*s),
{
    let searchable = match &s.searchable {
        Option::Some(v) => Some(clone_words(v)),
        Option::None => None,
    };
    let mut criteria: Vec<crate::index::Criterion> = Vec::new();
    let mut i: usize = 0;
    proof {
        assert(criteria@ =~= s.criteria@.take(0));
    }
    while i < s.criteria.len()
        invariant
            i <= s.criteria@.len(),
            criteria@ == s.criteria@.take(i as int),
        decreases s.criteria@.len() - i,
    {
        criteria.push(s.criteria[i]);
        proof {
            assert(criteria@ =~= s.criteria@.take(i + 1));
        }
        i = i + 1;
    }
    proof {
        assert(s.criteria@.take(s.criteria@.len() as int) =~= s.criteria@);
    }
    let r = Settings { primary_key: clone_chars(&s.primary_key), searchable, criteria };
    proof {
        assert(settings_view(r) == settings_view(*s));
    }
    r
}

/// Copy an index; the copy presents the same documents and postings.
pub fn clone_index(ix: &Index) -> (r: Index)
    ensures
        settings_view(r.settings) == settings_view(ix.settings),
        r.view_docs() == ix.view_docs(),
{
    let settings = clone_settings(&ix.settings);
    let mut docs: Vec<Option<DocEntry>> = Vec::new();
    let mut i: usize = 0;
    proof {
        assert(crate::index::docs_view(docs@) =~= ix.view_docs().take(0));
    }
    while i < ix.docs.len()
        invariant
            i <= ix.docs@.len(),
            docs@.len() == i,
            ix.view_docs().len() == ix.docs@.len(),
            crate::index::docs_view(docs@) == ix.view_docs().take(i as int),
        decreases ix.docs@.len() - i,
    {
        match &ix.docs[i] {
            Option::Some(e) => {
                let ne = DocEntry {
                    key: clone_chars(&e.key),
                    record: clone_record(&e.record),
                    tokens: clone_tokens(&e.tokens),
                };
                let ghost nev = crate::index::entry_view(ne);
                proof {
                    assert(ix.docs@[i as int] == Option::Some(*e));
                    assert(ix.view_docs()[i as int] == Option::Some(crate::index::entry_view(*e)));
                    assert(nev.key == crate::index::entry_view(*e).key);
                    assert(nev.record == crate::index::entry_view(*e).record);
                    assert(nev.toks == crate::index::entry_view(*e).toks);
                    assert(nev == crate::index::entry_view(*e));
                }
                let ghost pre = docs@;
                docs.push(Some(ne));
                proof {
                    assert(pre.len() == i as int);
                    assert(docs@.len() == i + 1);
                    assert(docs@[i as int] is Some);
                    assert(crate::index::entry_view(docs@[i as int]->0) == nev);
                    assert(crate::index::docs_view(docs@)[i as int] == Option::Some(nev));
                    assert(crate::index::docs_view(docs@) =~= ix.view_docs().take(i + 1));
                }
            },
            Option::None => {
                docs.push(None);
                proof {
                    assert(ix.view_docs()[i as int] is None);
                    assert(crate::index::docs_view(docs@)[i as int] is None);
                    assert(crate::index::docs_view(docs@) =~= ix.view_docs().take(i + 1));
                }
            },
        }
        i = i + 1;
    }
    proof {
        assert(ix.view_docs().take(ix.docs@.len() as int) =~= ix.view_docs());
    }
    Index { settings, docs }
}

/// A snapshot read transaction.
pub struct ReadTxn {
    pub index: Index,
}

/// An exclusive write transaction over a working copy of the index.
pub struct WriteTxn {
    pub index: Index,
}

/// The document store.
pub struct Store {
    pub committed: Index,
    pub writer_open: bool,
}

impl Store {
    /// An empty store under the given settings.
    pub fn new(settings: Settings) -> (r: Self)
        ensures
            r.committed.wf(),
            r.committed.view_docs() == Seq::<Option<SpecDocEntry>>::empty(),
            settings_view(r.committed.settings) == settings_view(settings),
            !r.writer_open,
    {
        Store { committed: Index::new(settings), writer_open: false }
    }

    /// Open a snapshot read transaction: later commits leave it unaffected.
    pub fn read_txn(&self) -> (r: ReadTxn)
        requires
            self.committed.wf(),
        ensures
            r.index.wf(),
            r.index.view_docs() == self.committed.view_docs(),
            settings_view(r.index.settings) == settings_view(self.committed.settings),
    {
        ReadTxn { index: clone_index(&self.committed) }
    }

    /// Open the single write transaction; a second writer is refused until
    /// the first commits or aborts.
    pub fn write_txn(&mut self) -> (r: Result<WriteTxn, Error>)
        requires
            old(self).committed.wf(),
        ensures
            final(self).committed == old(self).committed,
            r is Ok <==> !old(self).writer_open,
            match r {
                Result::Ok(t) => final(self).writer_open && t.index.wf() && t.index.view_docs()
                    == old(self).committed.view_docs() && settings_view(t.index.settings)
                    == settings_view(old(self).committed.settings),
                Result::Err(e) => e == Error::TransactionConflict && final(self).writer_open,
            },
    {
        if self.writer_open {
            Err(Error::TransactionConflict)
        } else {
            self.writer_open = true;
            Ok(WriteTxn { index: clone_index(&self.committed) })
        }
    }

    /// Commit a write transaction: its index becomes the committed state,
    /// visible to read transactions opened from now on.
    pub fn commit(&mut self, txn: WriteTxn)
        ensures
            final(self).committed == txn.index,
            !final(self).writer_open,
    {
        self.committed = txn.index;
        self.writer_open = false;
    }

    /// Abort a write transaction: the store keeps its pre-transaction state.
    pub fn abort(&mut self, txn: WriteTxn)
        ensures
            final(self).committed == old(self).committed,
            !final(self).writer_open,
    {
        let _ = txn;
        self.writer_open = false;
    }
}

} // verus!
