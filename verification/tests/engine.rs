// Behaviour of the indexer, the store and the search path on concrete
// values: replace semantics, deletes, validation errors, transaction
// discipline and the batch-replay workload.

use search_core::index::{Criterion, DocRecord, Settings};
use search_core::indexer::{Error, IndexerBuilder};
use search_core::reduce::TermsMatchingStrategy;
use search_core::search::Search;
use search_core::store::Store;
use search_core::workload::{Batch, DocId, Document, Operation};

fn doc(id: i64, text: &str) -> DocRecord {
    let mut r = DocRecord::new();
    r.add_int_field("id", id);
    r.add_str_field("text", text);
    r
}

fn text_store() -> Store {
    let mut settings = Settings::new("id");
    settings.set_searchable(vec!["text"]);
    settings.set_criteria(vec![Criterion::Words]);
    Store::new(settings)
}

#[test]
fn idempotent_replace_same_batch() {
    let mut store = text_store();
    let mut txn = store.write_txn().unwrap();
    let mut builder = IndexerBuilder::new(&txn.index);
    builder
        .add_documents(vec![doc(7, "old words here"), doc(7, "new words")])
        .unwrap();
    let report = builder.execute(&mut txn.index).unwrap();
    assert_eq!(report.added, 2);
    store.commit(txn);

    // exactly one document, under the identifier of the first add
    let rtxn = store.read_txn();
    let s = Search::new(&rtxn);
    let res = s.execute().unwrap();
    assert_eq!(format!("{:?}", res.documents_ids), "[0]");

    // the stored record reflects the last add: "old" is gone, "new" matches
    let mut s = Search::new(&rtxn);
    s.query("old");
    assert_eq!(s.execute().unwrap().documents_ids.len(), 0);
    let mut s = Search::new(&rtxn);
    s.query("new");
    assert_eq!(format!("{:?}", s.execute().unwrap().documents_ids), "[0]");
}

#[test]
fn replace_keeps_identifier_across_batches() {
    let mut store = text_store();
    let mut txn = store.write_txn().unwrap();
    let mut builder = IndexerBuilder::new(&txn.index);
    builder
        .add_documents(vec![doc(1, "alpha"), doc(2, "beta")])
        .unwrap();
    builder.execute(&mut txn.index).unwrap();
    store.commit(txn);

    let mut txn = store.write_txn().unwrap();
    let mut builder = IndexerBuilder::new(&txn.index);
    builder.add_documents(vec![doc(1, "gamma")]).unwrap();
    builder.execute(&mut txn.index).unwrap();
    store.commit(txn);

    let rtxn = store.read_txn();
    let mut s = Search::new(&rtxn);
    s.query("gamma");
    assert_eq!(format!("{:?}", s.execute().unwrap().documents_ids), "[0]");
    let mut s = Search::new(&rtxn);
    s.query("alpha");
    assert_eq!(s.execute().unwrap().documents_ids.len(), 0);
}

#[test]
fn delete_then_search_returns_empty() {
    let mut store = text_store();
    let mut txn = store.write_txn().unwrap();
    let mut builder = IndexerBuilder::new(&txn.index);
    builder
        .add_documents(vec![doc(1, "alpha beta"), doc(2, "beta gamma")])
        .unwrap();
    builder.execute(&mut txn.index).unwrap();
    store.commit(txn);

    let mut txn = store.write_txn().unwrap();
    let mut builder = IndexerBuilder::new(&txn.index);
    let removed = builder.remove_documents(&vec!["1".to_string(), "2".to_string()]);
    assert_eq!(removed, 2);
    let report = builder.execute(&mut txn.index).unwrap();
    assert_eq!(report.removed, 2);
    store.commit(txn);

    let rtxn = store.read_txn();
    for query in ["beta", "alpha beta gamma", "\"beta gamma\""] {
        let mut s = Search::new(&rtxn);
        s.query(query);
        s.terms_matching_strategy(TermsMatchingStrategy::Last);
        let res = s.execute().unwrap();
        assert_eq!(res.documents_ids.len(), 0);
    }
}

#[test]
fn delete_unknown_key_is_ignored() {
    let mut store = text_store();
    let mut txn = store.write_txn().unwrap();
    let mut builder = IndexerBuilder::new(&txn.index);
    builder.add_documents(vec![doc(1, "alpha")]).unwrap();
    let _ = builder.remove_documents(&vec!["99".to_string()]);
    let report = builder.execute(&mut txn.index).unwrap();
    assert_eq!(report.added, 1);
    assert_eq!(report.removed, 0);
    store.commit(txn);
}

#[test]
fn missing_primary_key_fails_batch() {
    let mut store = text_store();
    let mut txn = store.write_txn().unwrap();
    let mut builder = IndexerBuilder::new(&txn.index);
    let mut bad = DocRecord::new();
    bad.add_str_field("text", "no key at all");
    let err = builder
        .add_documents(vec![doc(1, "fine"), bad])
        .unwrap_err();
    assert_eq!(err, Error::MissingPrimaryKey);
    // the whole call failed: nothing was buffered
    let report = builder.execute(&mut txn.index).unwrap();
    assert_eq!(report.added, 0);
    store.abort(txn);
}

#[test]
fn duplicate_field_name_fails_batch() {
    let mut store = text_store();
    let mut txn = store.write_txn().unwrap();
    let mut builder = IndexerBuilder::new(&txn.index);
    let mut bad = DocRecord::new();
    bad.add_int_field("id", 3);
    bad.add_str_field("text", "once");
    bad.add_str_field("text", "twice");
    let err = builder.add_documents(vec![bad]).unwrap_err();
    assert_eq!(err, Error::InvalidDocumentShape);
    store.abort(txn);
}

#[test]
fn second_writer_is_refused() {
    let mut store = text_store();
    let txn = store.write_txn().unwrap();
    let err = match store.write_txn() {
        Ok(_) => panic!("second writer must be refused"),
        Err(e) => e,
    };
    assert_eq!(err, Error::TransactionConflict);
    store.abort(txn);
    // after the abort a writer may start again
    let txn = store.write_txn().unwrap();
    store.commit(txn);
}

#[test]
fn aborted_writer_leaves_store_unchanged() {
    let mut store = text_store();
    let mut txn = store.write_txn().unwrap();
    let mut builder = IndexerBuilder::new(&txn.index);
    builder.add_documents(vec![doc(1, "alpha")]).unwrap();
    builder.execute(&mut txn.index).unwrap();
    store.abort(txn);

    let rtxn = store.read_txn();
    let res = Search::new(&rtxn).execute().unwrap();
    assert_eq!(res.documents_ids.len(), 0);
}

#[test]
fn snapshot_reader_unaffected_by_later_commit() {
    let mut store = text_store();
    let mut txn = store.write_txn().unwrap();
    let mut builder = IndexerBuilder::new(&txn.index);
    builder.add_documents(vec![doc(1, "alpha")]).unwrap();
    builder.execute(&mut txn.index).unwrap();
    store.commit(txn);

    let snapshot = store.read_txn();

    let mut txn = store.write_txn().unwrap();
    let mut builder = IndexerBuilder::new(&txn.index);
    builder.add_documents(vec![doc(2, "beta")]).unwrap();
    builder.execute(&mut txn.index).unwrap();
    store.commit(txn);

    // the old snapshot still sees one document; a fresh one sees two
    let res = Search::new(&snapshot).execute().unwrap();
    assert_eq!(format!("{:?}", res.documents_ids), "[0]");
    let fresh = store.read_txn();
    let res = Search::new(&fresh).execute().unwrap();
    assert_eq!(format!("{:?}", res.documents_ids), "[0, 1]");
}

#[test]
fn same_search_twice_is_identical() {
    let mut store = text_store();
    let mut txn = store.write_txn().unwrap();
    let mut builder = IndexerBuilder::new(&txn.index);
    builder
        .add_documents(vec![
            doc(0, "the quick brown fox"),
            doc(1, "the quick brown"),
            doc(2, "a quick fox"),
        ])
        .unwrap();
    builder.execute(&mut txn.index).unwrap();
    store.commit(txn);

    let rtxn = store.read_txn();
    let mut first = Search::new(&rtxn);
    first.query("the quick brown fox");
    first.terms_matching_strategy(TermsMatchingStrategy::Last);
    let a = first.execute().unwrap();
    let mut second = Search::new(&rtxn);
    second.query("the quick brown fox");
    second.terms_matching_strategy(TermsMatchingStrategy::Last);
    let b = second.execute().unwrap();
    assert_eq!(
        format!("{:?}", a.documents_ids),
        format!("{:?}", b.documents_ids)
    );
    // 2 lacks "the", which every variant keeps, so only 0 and 1 rank
    assert_eq!(format!("{:?}", a.documents_ids), "[0, 1]");
}

#[test]
fn empty_query_graph_matches_nothing() {
    let mut store = text_store();
    let mut txn = store.write_txn().unwrap();
    let mut builder = IndexerBuilder::new(&txn.index);
    builder.add_documents(vec![doc(1, "alpha")]).unwrap();
    builder.execute(&mut txn.index).unwrap();
    store.commit(txn);

    let rtxn = store.read_txn();
    for query in ["", "   ", "\"\""] {
        let mut s = Search::new(&rtxn);
        s.query(query);
        let res = s.execute().unwrap();
        assert_eq!(res.documents_ids.len(), 0);
    }
}

#[test]
fn limit_caps_the_placeholder_scan() {
    let mut store = text_store();
    let mut txn = store.write_txn().unwrap();
    let mut builder = IndexerBuilder::new(&txn.index);
    let mut docs = Vec::new();
    for i in 0..25 {
        docs.push(doc(i, "word"));
    }
    builder.add_documents(docs).unwrap();
    builder.execute(&mut txn.index).unwrap();
    store.commit(txn);

    let rtxn = store.read_txn();
    let res = Search::new(&rtxn).execute().unwrap();
    assert_eq!(res.documents_ids.len(), 20);
    assert_eq!(res.documents_ids[0], 0);
    assert_eq!(res.documents_ids[19], 19);

    let mut s = Search::new(&rtxn);
    s.limit(3);
    let res = s.execute().unwrap();
    assert_eq!(format!("{:?}", res.documents_ids), "[0, 1, 2]");
}

#[test]
fn workload_fixture_records() {
    assert_eq!(Document::from_byte(0), Document::One);
    assert_eq!(Document::from_byte(7), Document::Two);
    assert_eq!(Document::from_byte(5), Document::Six);
    assert_eq!(DocId::from_byte(4), DocId::Zero);
    assert_eq!(DocId::from_byte(9), DocId::One);
    assert_eq!(DocId::Zero.to_s(), "0".to_string());
    assert_eq!(DocId::One.to_s(), "1".to_string());
    let rec = Document::Three.to_d();
    assert_eq!(rec.fields.len(), 2);
}

#[test]
fn replayed_batches_keep_the_index_sound() {
    let settings = Settings::new("id");
    let mut store = Store::new(settings);
    let batches = vec![
        Batch(vec![
            Operation::AddDoc(Document::One),
            Operation::AddDoc(Document::Four),
            Operation::AddDoc(Document::Two),
        ]),
        Batch(vec![
            Operation::DeleteDoc(DocId::Zero),
            Operation::AddDoc(Document::Six),
            Operation::DeleteDoc(DocId::Zero),
        ]),
        Batch(vec![]),
        Batch(vec![
            Operation::AddDoc(Document::Three),
            Operation::DeleteDoc(DocId::One),
            Operation::AddDoc(Document::Five),
        ]),
    ];
    let res = search_core::workload::run_batches(&mut store, &batches).unwrap();
    // two keys at most, so at most two live documents, all distinct
    assert!(res.documents_ids.len() <= 2);
    let rtxn = store.read_txn();
    let records = rtxn.index.documents(&res.documents_ids).unwrap();
    assert_eq!(records.len(), res.documents_ids.len());
}

#[test]
fn workload_from_arbitrary_bytes() {
    let settings = Settings::new("id");
    let mut store = Store::new(settings);
    let raw: Vec<u8> = vec![0, 0, 1, 3, 0, 5, 1, 0, 0, 2, 1, 1];
    let mut ops = Vec::new();
    let mut i = 0;
    while i + 1 < raw.len() {
        ops.push(Operation::from_bytes(raw[i], raw[i + 1]));
        i += 2;
    }
    let batches = vec![Batch(ops)];
    let res = search_core::workload::run_batches(&mut store, &batches).unwrap();
    assert!(res.documents_ids.len() <= 2);
}

#[test]
fn cancelled_batch_commits_nothing() {
    let mut store = text_store();
    let mut txn = store.write_txn().unwrap();
    let mut builder = IndexerBuilder::new(&txn.index);
    builder
        .add_documents(vec![doc(1, "alpha"), doc(2, "beta"), doc(3, "gamma")])
        .unwrap();
    let err = match builder.execute_with_stop(&mut txn.index, Some(2)) {
        Ok(_) => panic!("the stop budget must cancel the batch"),
        Err(e) => e,
    };
    assert_eq!(err, Error::Cancelled);
    store.abort(txn);
    let rtxn = store.read_txn();
    assert_eq!(Search::new(&rtxn).execute().unwrap().documents_ids.len(), 0);

    // re-issuing the same batch with a sufficient budget succeeds
    let mut txn = store.write_txn().unwrap();
    let mut builder = IndexerBuilder::new(&txn.index);
    builder
        .add_documents(vec![doc(1, "alpha"), doc(2, "beta"), doc(3, "gamma")])
        .unwrap();
    match builder.execute_with_stop(&mut txn.index, Some(3)) {
        Ok(report) => assert_eq!(report.added, 3),
        Err(_) => panic!("a covering budget must not cancel"),
    }
    store.commit(txn);
    let rtxn = store.read_txn();
    assert_eq!(Search::new(&rtxn).execute().unwrap().documents_ids.len(), 3);
}

#[test]
fn token_distance_formula() {
    // forward gap, backward gap with its penalty, and the clamp
    assert_eq!(search_core::distance(5, 7), 2);
    assert_eq!(search_core::distance(7, 5), 3);
    assert_eq!(search_core::distance(3, 3), 0);
    assert_eq!(search_core::distance(0, 100), 8);
    assert_eq!(search_core::distance(100, 0), 8);
}

#[test]
fn negative_integer_primary_key() {
    let mut store = text_store();
    let mut txn = store.write_txn().unwrap();
    let mut builder = IndexerBuilder::new(&txn.index);
    builder.add_documents(vec![doc(-5, "alpha")]).unwrap();
    builder.execute(&mut txn.index).unwrap();
    store.commit(txn);

    let mut txn = store.write_txn().unwrap();
    let mut builder = IndexerBuilder::new(&txn.index);
    let _ = builder.remove_documents(&vec!["-5".to_string()]);
    let report = builder.execute(&mut txn.index).unwrap();
    assert_eq!(report.removed, 1);
    store.commit(txn);

    let rtxn = store.read_txn();
    assert_eq!(Search::new(&rtxn).execute().unwrap().documents_ids.len(), 0);
}

#[test]
fn string_primary_key_field() {
    let mut settings = Settings::new("ref");
    settings.set_searchable(vec!["text"]);
    let mut store = Store::new(settings);
    let mut txn = store.write_txn().unwrap();
    let mut builder = IndexerBuilder::new(&txn.index);
    let mut rec = DocRecord::new();
    rec.add_str_field("ref", "abc");
    rec.add_str_field("text", "alpha beta");
    builder.add_documents(vec![rec]).unwrap();
    builder.execute(&mut txn.index).unwrap();
    store.commit(txn);

    let mut txn = store.write_txn().unwrap();
    let mut builder = IndexerBuilder::new(&txn.index);
    let _ = builder.remove_documents(&vec!["abc".to_string()]);
    let report = builder.execute(&mut txn.index).unwrap();
    assert_eq!(report.removed, 1);
    store.commit(txn);
}

#[test]
fn repeated_word_phrase_needs_two_occurrences() {
    let mut store = text_store();
    let mut txn = store.write_txn().unwrap();
    let mut builder = IndexerBuilder::new(&txn.index);
    builder
        .add_documents(vec![doc(0, "say the the word"), doc(1, "the word")])
        .unwrap();
    builder.execute(&mut txn.index).unwrap();
    store.commit(txn);

    let rtxn = store.read_txn();
    let mut s = Search::new(&rtxn);
    s.query("\"the the\"");
    let res = s.execute().unwrap();
    // one "the" paired with itself is no phrase match
    assert_eq!(format!("{:?}", res.documents_ids), "[0]");
}
