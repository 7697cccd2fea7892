use cemantix_ia::dispatch::DataThread;
use cemantix_ia::history::adding_word_to_historic;
use cemantix_ia::history::Date;
use cemantix_ia::history::HistoryStore;
use cemantix_ia::solve::word_already_found_today;
use cemantix_ia::solve::Solve;

fn solve_options() -> Solve {
    Solve {
        source_filename: String::from("liste.txt"),
        starting_index: 0,
        batch_size: 2,
        graph: false,
    }
}

#[test]
fn solve_returns_at_once_when_today_is_recorded() {
    // the history file ends with "chien : 05-03-2024" and today is 05-03-2024
    let mut history = HistoryStore::new();
    history.append(String::from("chien"), Date::new(5, 3, 2024));
    let today = Date::new(5, 3, 2024);
    assert!(word_already_found_today(&history, today));

    let mut state = DataThread::default();
    let words = vec![String::from("chat"), String::from("chien")];
    let scores = vec![Some(300), Some(1000)];
    let invocations = solve_options().solve_cemantix(&mut state, &history, today, words, &scores);
    assert_eq!(invocations, 0);
    assert_eq!(state.nb_tested_words, 0);
    assert_eq!(state.word, "");
    assert_eq!(state.score, 0);
}

#[test]
fn solve_runs_when_the_last_entry_is_older() {
    let mut history = HistoryStore::new();
    history.append(String::from("chat"), Date::new(4, 3, 2024));
    let today = Date::new(5, 3, 2024);
    assert!(!word_already_found_today(&history, today));

    let mut state = DataThread::default();
    let words = vec![String::from("chat"), String::from("chien")];
    let scores = vec![Some(300), Some(1000)];
    let invocations = solve_options().solve_cemantix(&mut state, &history, today, words, &scores);
    assert_eq!(invocations, 1);
    assert_eq!(state.word, "chien");
    assert_eq!(state.score, 1000);
}

#[test]
fn solving_twice_on_one_day_queries_nothing_the_second_time() {
    let today = Date::new(5, 3, 2024);
    let mut history = HistoryStore::new();
    let mut state = DataThread::default();
    let words = vec![String::from("chat"), String::from("chien")];
    let scores = vec![Some(300), Some(1000)];

    // first run finds the word and records it
    let first = solve_options().solve_cemantix(&mut state, &history, today, words, &scores);
    assert_eq!(first, 1);
    assert_eq!(state.word, "chien");
    let appended = adding_word_to_historic(&state.word, &mut history, &Vec::new(), today);
    assert!(appended);

    // the second run dispatches nothing and moves nothing
    let mut state2 = DataThread::default();
    let words2 = vec![String::from("chat"), String::from("chien")];
    let second = solve_options().solve_cemantix(&mut state2, &history, today, words2, &scores);
    assert_eq!(second, 0);
    assert_eq!(state2.nb_tested_words, 0);
}
