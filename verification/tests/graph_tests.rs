use cemantix_ia::dispatch::DataThread;
use cemantix_ia::error::EngineError;
use cemantix_ia::graph::plan_graph_candidates;
use cemantix_ia::graph::process_graph_batch;
use cemantix_ia::graph::run_graph_batches;
use cemantix_ia::graph::word_of_the_day;
use cemantix_ia::graph::Graph;
use cemantix_ia::history::Date;
use cemantix_ia::history::HistoryStore;
use cemantix_ia::word_record::BatchOutcome;
use cemantix_ia::word_record::CemantixWord;

#[test]
fn graph_new_keeps_the_batch_size() {
    let g = Graph::new(50);
    assert_eq!(g.batch_size, 50);
}

#[test]
fn word_of_the_day_needs_a_history_entry_for_today() {
    let today = Date::new(5, 3, 2024);
    let empty = HistoryStore::new();
    assert_eq!(
        word_of_the_day(&empty, today),
        Err(EngineError::MissingWordOfDay)
    );

    let mut stale = HistoryStore::new();
    stale.append(String::from("chat"), Date::new(4, 3, 2024));
    assert_eq!(
        word_of_the_day(&stale, today),
        Err(EngineError::MissingWordOfDay)
    );

    let mut fresh = HistoryStore::new();
    fresh.append(String::from("chien"), today);
    assert_eq!(word_of_the_day(&fresh, today), Ok(String::from("chien")));
}

#[test]
fn planned_candidates_are_deduplicated_and_unscored() {
    let lists = vec![
        vec![String::from("a"), String::from("b"), String::from("c")],
        vec![String::from("b"), String::from("d")],
    ];
    let records = vec![CemantixWord::new(String::from("c"), 0, 100)];
    let planned = plan_graph_candidates(&lists, &records);
    assert_eq!(
        planned,
        vec![String::from("a"), String::from("b"), String::from("d")]
    );
}

#[test]
fn graph_batch_merges_scored_outcomes_and_never_stops() {
    let mut state = DataThread::default();
    state.words_data.push(CemantixWord::new(String::from("a"), 0, 100));
    let outs = vec![
        BatchOutcome::new(String::from("a"), Some(999)),
        BatchOutcome::new(String::from("b"), Some(200)),
        BatchOutcome::new(String::from("c"), None),
    ];
    let done = process_graph_batch(&mut state, &outs);
    assert!(!done);
    assert_eq!(state.words_data.len(), 2);
    // the record already held wins: a keeps its score
    assert_eq!(state.words_data[0].word, "a");
    assert_eq!(state.words_data[0].score, 100);
    assert_eq!(state.words_data[1].word, "b");
    assert_eq!(state.words_data[1].score, 200);
}

#[test]
fn graph_run_exhausts_every_batch() {
    let mut state = DataThread::default();
    let words = vec![
        String::from("a"),
        String::from("b"),
        String::from("c"),
        String::from("d"),
        String::from("e"),
    ];
    // a perfect score does not stop graph mode
    let scores = vec![Some(1000), Some(200), None, Some(300), Some(400)];
    let invocations = run_graph_batches(&mut state, words, &scores, 2);
    assert_eq!(invocations, 3);
    assert_eq!(state.words_data.len(), 4);
    assert_eq!(state.words_data[0].word, "a");
    assert_eq!(state.words_data[1].word, "b");
    assert_eq!(state.words_data[2].word, "d");
    assert_eq!(state.words_data[3].word, "e");
    // the graph callback leaves the best word and the count alone
    assert_eq!(state.word, "");
    assert_eq!(state.nb_tested_words, 0);
}
