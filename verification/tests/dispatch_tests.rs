use cemantix_ia::cap_batch_size;
use cemantix_ia::dispatch::process_solve_batch;
use cemantix_ia::dispatch::run_solve_batches;
use cemantix_ia::dispatch::DataThread;
use cemantix_ia::dispatch::Dispatcher;
use cemantix_ia::word_record::BatchOutcome;

#[test]
fn scenario_three_words_no_early_stop() {
    // batch 1 = [chat -> 0.300, chien -> 0.900], batch 2 = [table -> none]
    let mut state = DataThread::default();
    let words = vec![
        String::from("chat"),
        String::from("chien"),
        String::from("table"),
    ];
    let scores = vec![Some(300), Some(900), None];
    let invocations = run_solve_batches(&mut state, words, &scores, 2);
    assert_eq!(invocations, 2);
    assert_eq!(state.word, "chien");
    assert_eq!(state.score, 900);
    assert_eq!(state.nb_tested_words, 3);
}

#[test]
fn scenario_perfect_match_stops_after_first_batch() {
    // batch 1 yields chien -> 1.000: table is never queried
    let mut state = DataThread::default();
    let words = vec![
        String::from("chat"),
        String::from("chien"),
        String::from("table"),
    ];
    let scores = vec![Some(300), Some(1000), None];
    let invocations = run_solve_batches(&mut state, words, &scores, 2);
    assert_eq!(invocations, 1);
    assert_eq!(state.word, "chien");
    assert_eq!(state.score, 1000);
    assert_eq!(state.nb_tested_words, 2);
}

#[test]
fn full_run_counts_words_and_batches() {
    // five words, batch size two, no perfect match: ceil(5/2) = 3 batches
    let mut state = DataThread::default();
    let words = vec![
        String::from("a"),
        String::from("b"),
        String::from("c"),
        String::from("d"),
        String::from("e"),
    ];
    let scores = vec![Some(10), None, Some(30), Some(20), None];
    let invocations = run_solve_batches(&mut state, words, &scores, 2);
    assert_eq!(invocations, 3);
    assert_eq!(state.nb_tested_words, 5);
    assert_eq!(state.word, "c");
    assert_eq!(state.score, 30);
}

#[test]
fn dispatcher_hands_out_nothing_after_done() {
    let mut d = Dispatcher::new(vec![String::from("a"), String::from("b")], 1);
    let first = d.next_chunk();
    assert!(first.is_some());
    assert_eq!(first.unwrap(), vec![String::from("a")]);
    d.record_done(true);
    assert!(d.next_chunk().is_none());
    assert_eq!(d.position(), 1);
}

#[test]
fn dispatcher_chunks_keep_input_order() {
    let mut d = Dispatcher::new(
        vec![String::from("a"), String::from("b"), String::from("c")],
        2,
    );
    assert_eq!(
        d.next_chunk().unwrap(),
        vec![String::from("a"), String::from("b")]
    );
    assert_eq!(d.next_chunk().unwrap(), vec![String::from("c")]);
    assert!(d.next_chunk().is_none());
}

#[test]
fn batch_tie_goes_to_the_first_seen() {
    let mut state = DataThread::default();
    let outs = vec![
        BatchOutcome::new(String::from("premier"), Some(500)),
        BatchOutcome::new(String::from("second"), Some(500)),
    ];
    let done = process_solve_batch(&mut state, &outs);
    assert!(!done);
    assert_eq!(state.word, "premier");
    assert_eq!(state.score, 500);
}

#[test]
fn batch_without_scores_only_counts() {
    let mut state = DataThread::default();
    state.word = String::from("acquis");
    state.score = 400;
    let outs = vec![
        BatchOutcome::new(String::from("x"), None),
        BatchOutcome::new(String::from("y"), None),
    ];
    let done = process_solve_batch(&mut state, &outs);
    assert!(!done);
    assert_eq!(state.word, "acquis");
    assert_eq!(state.score, 400);
    assert_eq!(state.nb_tested_words, 2);
}

#[test]
fn batch_lower_maximum_is_discarded() {
    let mut state = DataThread::default();
    state.word = String::from("acquis");
    state.score = 400;
    let outs = vec![BatchOutcome::new(String::from("x"), Some(300))];
    let done = process_solve_batch(&mut state, &outs);
    assert!(!done);
    assert_eq!(state.word, "acquis");
    assert_eq!(state.score, 400);
}

#[test]
fn empty_word_list_dispatches_nothing() {
    let mut state = DataThread::default();
    let words: Vec<String> = Vec::new();
    let scores: Vec<Option<i64>> = Vec::new();
    let invocations = run_solve_batches(&mut state, words, &scores, 3);
    assert_eq!(invocations, 0);
    assert_eq!(state.nb_tested_words, 0);
    assert_eq!(state.word, "");
}

#[test]
fn batch_larger_than_the_list_is_one_chunk() {
    let mut state = DataThread::default();
    let words = vec![String::from("a"), String::from("b")];
    let scores = vec![Some(100), Some(200)];
    let invocations = run_solve_batches(&mut state, words, &scores, 10);
    assert_eq!(invocations, 1);
    assert_eq!(state.nb_tested_words, 2);
    assert_eq!(state.word, "b");
}

#[test]
fn batch_size_is_capped_at_two_hundred() {
    assert_eq!(cap_batch_size(201), 200);
    assert_eq!(cap_batch_size(200), 200);
    assert_eq!(cap_batch_size(3), 3);
}

#[test]
fn data_thread_new_builds_the_cache_filename() {
    let d = DataThread::new(
        String::from("chien"),
        1000,
        Vec::new(),
        0,
        String::from("words_folder/"),
    );
    assert_eq!(d.filename, "words_folder/chien");
    assert_eq!(d.word, "chien");
    assert_eq!(d.score, 1000);
    assert_eq!(d.nb_tested_words, 0);
}
