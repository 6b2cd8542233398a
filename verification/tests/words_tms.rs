// Ranked search against the quick-brown-fox corpus: the `Last` strategy
// removes terms from the end of the query, phrases survive every strategy,
// and the Words and Proximity criteria rank as recorded.

use search_core::index::{Criterion, DocRecord, Settings};
use search_core::indexer::IndexerBuilder;
use search_core::reduce::TermsMatchingStrategy;
use search_core::search::{Search, SearchResult};
use search_core::store::Store;

fn doc(id: i64, text: &str) -> DocRecord {
    let mut r = DocRecord::new();
    r.add_int_field("id", id);
    r.add_str_field("text", text);
    r
}

fn create_quick_brown_fox_trivial_index() -> Store {
    let mut settings = Settings::new("id");
    settings.set_searchable(vec!["text"]);
    settings.set_criteria(vec![Criterion::Words]);
    let mut store = Store::new(settings);
    let mut txn = store.write_txn().unwrap();
    let mut builder = IndexerBuilder::new(&txn.index);
    let docs = vec![
        doc(0, ""),
        doc(1, "the"),
        doc(2, "the quick"),
        doc(3, "the quick brown"),
        doc(4, "the quick brown fox"),
        doc(5, "the quick brown fox jumps"),
        doc(6, "the quick brown fox jumps over"),
        doc(7, "the quick brown fox jumps over the"),
        doc(8, "the quick brown fox jumps over the lazy"),
        doc(9, "the quick brown fox jumps over the lazy dog"),
        doc(10, "the brown quick fox jumps over the lazy dog"),
        doc(11, "the quick brown fox talks to the lazy and slow dog"),
        doc(12, "the quick brown fox talks to the lazy dog"),
        doc(13, "the mighty and quick brown fox jumps over the lazy dog"),
        doc(14, "the great quick brown fox jumps over the lazy dog"),
        doc(
            15,
            "this quick brown and very scary fox jumps over the lazy dog",
        ),
        doc(16, "this quick brown and scary fox jumps over the lazy dog"),
        doc(17, "the quick brown fox jumps over the really lazy dog"),
        doc(18, "the brown quick fox jumps over the really lazy dog"),
        doc(19, "the brown quick fox immediately jumps over the really lazy dog"),
        doc(
            20,
            "the brown quick fox immediately jumps over the really lazy blue dog",
        ),
        doc(
            21,
            "the quick brown. quick brown fox. brown fox jumps. fox jumps over. over the lazy. the lazy dog.",
        ),
        doc(22, "the, quick, brown, fox, jumps, over, the, lazy, dog"),
    ];
    builder.add_documents(docs).unwrap();
    builder.execute(&mut txn.index).unwrap();
    store.commit(txn);
    store
}

#[test]
fn test_words_tms_last_simple() {
    let store = create_quick_brown_fox_trivial_index();

    let txn = store.read_txn();
    let mut s = Search::new(&txn);
    s.query("the quick brown fox jumps over the lazy dog");
    s.terms_matching_strategy(TermsMatchingStrategy::Last);
    let SearchResult { documents_ids, .. } = s.execute().unwrap();

    // 6 and 7 have the same score because "the" appears twice
    assert_eq!(
        format!("{documents_ids:?}"),
        "[9, 10, 13, 14, 15, 16, 17, 18, 19, 20, 21, 22, 8, 6, 7, 5, 4, 11, 12, 3]"
    );

    let mut s = Search::new(&txn);
    s.query("extravagant the quick brown fox jumps over the lazy dog");
    s.terms_matching_strategy(TermsMatchingStrategy::Last);
    let SearchResult { documents_ids, .. } = s.execute().unwrap();
    assert_eq!(format!("{documents_ids:?}"), "[]");
}

#[test]
fn test_words_tms_last_phrase() {
    let store = create_quick_brown_fox_trivial_index();

    let txn = store.read_txn();
    let mut s = Search::new(&txn);
    s.query("\"the quick brown fox\" jumps over the lazy dog");
    s.terms_matching_strategy(TermsMatchingStrategy::Last);
    let SearchResult { documents_ids, .. } = s.execute().unwrap();

    // "The quick brown fox" is a phrase, not deleted by this term matching strategy
    assert_eq!(
        format!("{documents_ids:?}"),
        "[9, 17, 21, 8, 6, 7, 5, 4, 11, 12]"
    );

    let mut s = Search::new(&txn);
    s.query("\"the quick brown fox\" jumps over the \"lazy\" dog");
    s.terms_matching_strategy(TermsMatchingStrategy::Last);
    let SearchResult { documents_ids, .. } = s.execute().unwrap();

    // "lazy" is a phrase, not deleted by this term matching strategy
    // but words before it can be deleted
    assert_eq!(format!("{documents_ids:?}"), "[9, 17, 21, 8, 11, 12]");

    let mut s = Search::new(&txn);
    s.query("\"the quick brown fox jumps over the lazy dog\"");
    s.terms_matching_strategy(TermsMatchingStrategy::Last);
    let SearchResult { documents_ids, .. } = s.execute().unwrap();

    // The whole query is a phrase, no terms are removed
    assert_eq!(format!("{documents_ids:?}"), "[9]");

    let mut s = Search::new(&txn);
    s.query("\"the quick brown fox jumps over the lazy dog");
    s.terms_matching_strategy(TermsMatchingStrategy::Last);
    let SearchResult { documents_ids, .. } = s.execute().unwrap();

    // The whole query is still a phrase, even without closing quotes, so no terms are removed
    assert_eq!(format!("{documents_ids:?}"), "[9]");
}

#[test]
fn test_words_proximity_tms_last_simple() {
    let mut store = create_quick_brown_fox_trivial_index();
    store
        .committed
        .set_criteria(vec![Criterion::Words, Criterion::Proximity]);

    let txn = store.read_txn();
    let mut s = Search::new(&txn);
    s.query("the quick brown fox jumps over the lazy dog");
    s.terms_matching_strategy(TermsMatchingStrategy::Last);
    let SearchResult { documents_ids, .. } = s.execute().unwrap();

    // 7 is better than 6 because of the proximity between "the" and its surrounding terms
    assert_eq!(
        format!("{documents_ids:?}"),
        "[9, 21, 14, 17, 13, 10, 18, 19, 20, 16, 15, 22, 8, 7, 6, 5, 4, 11, 12, 3]"
    );

    let mut s = Search::new(&txn);
    s.query("the brown quick fox jumps over the lazy dog");
    s.terms_matching_strategy(TermsMatchingStrategy::Last);
    let SearchResult { documents_ids, .. } = s.execute().unwrap();

    // 10 is better than 9 because of the proximity between "quick" and "brown"
    assert_eq!(
        format!("{documents_ids:?}"),
        "[10, 18, 19, 9, 20, 21, 14, 17, 13, 16, 15, 22, 8, 7, 6, 5, 4, 11, 12, 3]"
    );
}

#[test]
fn test_words_proximity_tms_last_phrase() {
    let mut store = create_quick_brown_fox_trivial_index();
    store
        .committed
        .set_criteria(vec![Criterion::Words, Criterion::Proximity]);

    let txn = store.read_txn();
    let mut s = Search::new(&txn);
    s.query("the \"quick brown\" fox jumps over the lazy dog");
    s.terms_matching_strategy(TermsMatchingStrategy::Last);
    let SearchResult { documents_ids, .. } = s.execute().unwrap();

    // "quick brown" is a phrase. The proximity of its first and last words
    // to their adjacent query words should be taken into account
    assert_eq!(
        format!("{documents_ids:?}"),
        "[9, 21, 14, 17, 13, 16, 15, 8, 7, 6, 5, 4, 11, 12, 3]"
    );

    let mut s = Search::new(&txn);
    s.query("the \"quick brown\" \"fox jumps\" over the lazy dog");
    s.terms_matching_strategy(TermsMatchingStrategy::Last);
    let SearchResult { documents_ids, .. } = s.execute().unwrap();

    // The same applies to `fox jumps`.
    assert_eq!(
        format!("{documents_ids:?}"),
        "[9, 21, 14, 17, 13, 16, 15, 8, 7, 6, 5]"
    );
}

#[test]
fn test_words_tms_all() {
    let mut store = create_quick_brown_fox_trivial_index();
    store
        .committed
        .set_criteria(vec![Criterion::Words, Criterion::Proximity]);

    let txn = store.read_txn();
    let mut s = Search::new(&txn);
    s.query("the quick brown fox jumps over the lazy dog");
    s.terms_matching_strategy(TermsMatchingStrategy::All);
    let SearchResult { documents_ids, .. } = s.execute().unwrap();

    assert_eq!(
        format!("{documents_ids:?}"),
        "[9, 21, 14, 17, 13, 10, 18, 19, 20, 16, 15, 22]"
    );

    let mut s = Search::new(&txn);
    s.query("extravagant");
    s.terms_matching_strategy(TermsMatchingStrategy::All);
    let SearchResult { documents_ids, .. } = s.execute().unwrap();

    assert_eq!(format!("{documents_ids:?}"), "[]");
}
