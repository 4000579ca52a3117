use legal_pad::semantic_search::SearchError;
use legal_pad::semantic_search::SemanticSearch;
use legal_pad::semantic_search::rank_candidates;
use legal_pad::store::NoteRecord;
use legal_pad::codec::PersistenceError;
use legal_pad::codec::load;
use legal_pad::codec::save;

const DIM: usize = 4;

fn load_err(content: &str) -> PersistenceError {
    match load(content) {
        Ok(_) => panic!("expected a load failure"),
        Err(e) => e,
    }
}

fn new_err(content: &str) -> SearchError {
    match SemanticSearch::new(DIM, Some(content)) {
        Ok(_) => panic!("expected a construction failure"),
        Err(e) => e,
    }
}

fn fresh() -> SemanticSearch {
    SemanticSearch::new(DIM, None).expect("empty store")
}

#[test]
fn empty_store_search_is_empty() {
    let s = fresh();
    let res = s.search(&vec![1, 2, 3, 4], 5).expect("search");
    assert_eq!(res.len(), 0);
}

#[test]
fn add_then_search_self_is_top_with_zero_distance() {
    let mut s = fresh();
    s.add_note("remember the milk", &vec![1_000_000, 0, 0, 0]).expect("add");
    let res = s.search(&vec![1_000_000, 0, 0, 0], 1).expect("search");
    assert_eq!(res.len(), 1);
    assert_eq!(res[0].0, "remember the milk");
    assert_eq!(res[0].1, 0);
}

#[test]
fn search_length_is_min_of_k_and_store_size() {
    let mut s = fresh();
    s.add_note("one", &vec![10, 0, 0, 0]).expect("add");
    s.add_note("two", &vec![0, 10, 0, 0]).expect("add");
    s.add_note("three", &vec![0, 0, 10, 0]).expect("add");
    let res2 = s.search(&vec![10, 0, 0, 0], 2).expect("search");
    assert_eq!(res2.len(), 2);
    let res9 = s.search(&vec![10, 0, 0, 0], 9).expect("search");
    assert_eq!(res9.len(), 3);
    let res0 = s.search(&vec![10, 0, 0, 0], 0).expect("search");
    assert_eq!(res0.len(), 0);
}

#[test]
fn search_results_are_sorted_by_distance() {
    let mut s = fresh();
    s.add_note("north", &vec![10, 0, 0, 0]).expect("add");
    s.add_note("east", &vec![0, 10, 0, 0]).expect("add");
    s.add_note("up", &vec![0, 0, 10, 0]).expect("add");
    s.add_note("northish", &vec![9, 1, 0, 0]).expect("add");
    let res = s.search(&vec![10, 1, 0, 0], 4).expect("search");
    assert_eq!(res.len(), 4);
    for w in res.windows(2) {
        assert!(w[0].1 <= w[1].1);
    }
}

#[test]
fn groceries_rank_ahead_of_reading() {
    let mut s = fresh();
    s.add_note("buy milk", &vec![10, 0, 0, 0]).expect("add");
    s.add_note("buy eggs", &vec![9, 1, 0, 0]).expect("add");
    s.add_note("read a book", &vec![0, 0, 10, 0]).expect("add");
    let res = s.search(&vec![10, 1, 0, 0], 2).expect("search");
    assert_eq!(res.len(), 2);
    let texts: Vec<&str> = res.iter().map(|r| r.0.as_str()).collect();
    assert!(texts.contains(&"buy milk"));
    assert!(texts.contains(&"buy eggs"));
    assert!(!texts.contains(&"read a book"));
}

#[test]
fn nearest_neighbour_wins_even_at_the_last_position() {
    let mut s = fresh();
    s.add_note("far away", &vec![10, 0, 0, 0]).expect("add");
    s.add_note("also far", &vec![0, 10, 0, 0]).expect("add");
    s.add_note("the close one", &vec![0, 0, 0, 10]).expect("add");
    let res = s.search(&vec![0, 0, 1, 10], 1).expect("search");
    assert_eq!(res.len(), 1);
    assert_eq!(res[0].0, "the close one");
}

#[test]
fn remove_absent_text_changes_nothing() {
    let mut s = fresh();
    s.add_note("keep me", &vec![10, 0, 0, 0]).expect("add");
    let before = s.save();
    s.remove_note("never added").expect("remove");
    assert_eq!(s.len(), 1);
    assert_eq!(s.save(), before);
}

#[test]
fn remove_drops_every_exact_match() {
    let mut s = fresh();
    s.add_note("alpha", &vec![10, 0, 0, 0]).expect("add");
    s.add_note("beta", &vec![0, 10, 0, 0]).expect("add");
    s.add_note("alpha", &vec![0, 0, 10, 0]).expect("add");
    assert_eq!(s.len(), 3);
    s.remove_note("alpha").expect("remove");
    assert_eq!(s.len(), 1);
    let res = s.search(&vec![10, 0, 0, 0], 3).expect("search");
    assert_eq!(res.len(), 1);
    assert_eq!(res[0].0, "beta");
}

#[test]
fn removed_note_no_longer_an_exact_match() {
    let mut s = fresh();
    s.add_note("alpha", &vec![10, 0, 0, 0]).expect("add");
    s.remove_note("alpha").expect("remove");
    let res = s.search(&vec![10, 0, 0, 0], 1).expect("search");
    assert_eq!(res.len(), 0);
}

#[test]
fn save_load_round_trip_is_byte_stable() {
    let mut s = fresh();
    s.add_note("plain", &vec![10, 0, 0, 0]).expect("add");
    s.add_note("with spaces and [brackets]", &vec![-5, 5, 0, 0]).expect("add");
    s.add_note("multi\nline", &vec![1, 2, 3, 4]).expect("add");
    let first = s.save();
    let reloaded = SemanticSearch::new(DIM, Some(first.as_str())).expect("reload");
    let second = reloaded.save();
    assert_eq!(first, second);
    let res = reloaded.search(&vec![10, 0, 0, 0], 1).expect("search");
    assert_eq!(res[0].0, "plain");
}

#[test]
fn load_of_empty_text_is_an_empty_store() {
    let records = load("").expect("load");
    assert_eq!(records.len(), 0);
    let s = SemanticSearch::new(DIM, Some("")).expect("new");
    assert_eq!(s.len(), 0);
}

#[test]
fn malformed_persisted_text_fails_the_whole_load() {
    assert_eq!(load_err("not a store"), PersistenceError::Malformed);
    assert_eq!(load_err("3 x"), PersistenceError::Malformed);
    // a record whose component field is missing
    assert_eq!(load_err("2 1 hi\n"), PersistenceError::Malformed);
    // trailing garbage after a valid record
    let good = save(&vec![NoteRecord { text: "hi".to_string(), embedding: vec![0, 0, 0, 0] }]);
    let mut bad = good.clone();
    bad.push('x');
    assert!(load(bad.as_str()).is_err());
    assert_eq!(new_err("junk"), SearchError::Persistence);
}

#[test]
fn dimension_mismatch_in_persisted_store_is_rejected() {
    let other = save(&vec![NoteRecord { text: "short".to_string(), embedding: vec![0, 0] }]);
    assert_eq!(new_err(other.as_str()), SearchError::Persistence);
}

#[test]
fn malformed_embeddings_are_rejected() {
    let mut s = fresh();
    assert_eq!(
        s.add_note("wrong length", &vec![1, 2, 3]).unwrap_err(),
        SearchError::Embedding
    );
    assert_eq!(
        s.add_note("out of range", &vec![2_000_000, 0, 0, 0]).unwrap_err(),
        SearchError::Embedding
    );
    assert_eq!(s.len(), 0);
    assert_eq!(s.search(&vec![1, 2], 1).unwrap_err(), SearchError::Embedding);
}

#[test]
fn stale_index_identifier_is_an_index_error() {
    let notes = vec![NoteRecord { text: "only".to_string(), embedding: vec![1024, 0, 0, 0] }];
    let ranked = rank_candidates(&notes, &vec![1024, 0, 0, 0], &vec![7], 1);
    assert_eq!(ranked.unwrap_err(), SearchError::Index);
}

#[test]
fn rank_candidates_orders_and_completes() {
    let notes = vec![
        NoteRecord { text: "a".to_string(), embedding: vec![1024, 0, 0, 0] },
        NoteRecord { text: "b".to_string(), embedding: vec![0, 1024, 0, 0] },
        NoteRecord { text: "c".to_string(), embedding: vec![0, 0, 1024, 0] },
    ];
    // the index answered with one duplicate and one id; ranking still
    // returns min(k, n) distinct positions, sorted by exact distance
    let ranked = rank_candidates(&notes, &vec![0, 1024, 0, 0], &vec![1, 1], 2).expect("rank");
    assert_eq!(ranked.len(), 2);
    assert_eq!(ranked[0].0, 1);
    assert_eq!(ranked[0].1, 0);
    assert!(ranked[0].1 <= ranked[1].1);
    assert_ne!(ranked[0].0, ranked[1].0);
}

#[test]
fn normalization_is_shared_between_add_and_query() {
    let mut s = fresh();
    // the same direction at a very different raw magnitude still matches
    s.add_note("scaled", &vec![1_000_000, 0, 0, 0]).expect("add");
    let res = s.search(&vec![10, 0, 0, 0], 1).expect("search");
    assert_eq!(res[0].0, "scaled");
    assert_eq!(res[0].1, 0);
}

#[test]
fn zero_norm_vectors_are_stored_unchanged() {
    let mut s = fresh();
    s.add_note("nothing", &vec![0, 0, 0, 0]).expect("add");
    let res = s.search(&vec![0, 0, 0, 0], 1).expect("search");
    assert_eq!(res[0].0, "nothing");
    assert_eq!(res[0].1, 0);
}
