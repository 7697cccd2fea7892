use cemantix_ia::error::EngineError;
use cemantix_ia::history::adding_word_to_historic;
use cemantix_ia::history::parse_date;
use cemantix_ia::history::parse_history_line;
use cemantix_ia::history::render_date;
use cemantix_ia::history::render_history_line;
use cemantix_ia::history::trim_spaces;
use cemantix_ia::history::Date;
use cemantix_ia::history::HistoryStore;
use cemantix_ia::words_getter::WordGetter;

#[test]
fn parse_date_reads_the_fixed_format() {
    let d = parse_date("05-03-2024").unwrap();
    assert_eq!(d, Date::new(5, 3, 2024));
    assert_eq!(parse_date("31-12-0000").unwrap(), Date::new(31, 12, 0));
}

#[test]
fn parse_date_rejects_what_is_no_date() {
    assert!(parse_date("").is_none());
    assert!(parse_date("5-3-2024").is_none());
    assert!(parse_date("05/03/2024").is_none());
    assert!(parse_date("00-03-2024").is_none());
    assert!(parse_date("32-01-2024").is_none());
    assert!(parse_date("05-13-2024").is_none());
    assert!(parse_date("31-04-2024").is_none());
    assert!(parse_date("ab-03-2024").is_none());
}

#[test]
fn parse_date_knows_leap_years() {
    assert!(parse_date("29-02-2024").is_some());
    assert!(parse_date("29-02-2023").is_none());
    assert!(parse_date("29-02-1900").is_none());
    assert!(parse_date("29-02-2000").is_some());
}

#[test]
fn render_date_pads_with_zeros() {
    assert_eq!(render_date(&Date::new(5, 3, 2024)), "05-03-2024");
    assert_eq!(render_date(&Date::new(31, 12, 87)), "31-12-0087");
}

#[test]
fn date_survives_a_round_trip() {
    let d = Date::new(29, 2, 2024);
    assert_eq!(parse_date(render_date(&d).as_str()), Some(d));
}

#[test]
fn trim_strips_edge_spaces_only() {
    assert_eq!(trim_spaces("  chien  "), "chien");
    assert_eq!(trim_spaces("chien"), "chien");
    assert_eq!(trim_spaces("   "), "");
    assert_eq!(trim_spaces("a b"), "a b");
}

#[test]
fn parse_history_line_reads_word_and_date() {
    let (word, date) = parse_history_line("chien : 05-03-2024").unwrap();
    assert_eq!(word, "chien");
    assert_eq!(date, Date::new(5, 3, 2024));
}

#[test]
fn parse_history_line_rejects_bad_lines() {
    assert!(parse_history_line("no separator").is_none());
    assert!(parse_history_line("chien : pas-une-date").is_none());
    assert!(parse_history_line("").is_none());
}

#[test]
fn history_line_survives_a_round_trip() {
    let d = Date::new(5, 3, 2024);
    let line = render_history_line(&String::from("chien"), &d);
    assert_eq!(line, "chien : 05-03-2024");
    let (word, date) = parse_history_line(line.as_str()).unwrap();
    assert_eq!(word, "chien");
    assert_eq!(date, d);
}

#[test]
fn history_last_is_the_latest_entry() {
    let mut h = HistoryStore::new();
    assert!(h.last().is_none());
    h.append(String::from("chat"), Date::new(4, 3, 2024));
    h.append(String::from("chien"), Date::new(5, 3, 2024));
    let last = h.last().unwrap();
    assert_eq!(last.word, "chien");
    assert_eq!(last.date, Date::new(5, 3, 2024));
}

#[test]
fn history_entry_is_not_recorded_twice_for_a_cached_word() {
    let mut h = HistoryStore::new();
    let cached = vec![String::from("chien")];
    let appended = adding_word_to_historic(
        &String::from("chien"),
        &mut h,
        &cached,
        Date::new(5, 3, 2024),
    );
    assert!(!appended);
    assert!(h.last().is_none());
}

#[test]
fn history_entry_is_recorded_for_a_new_word() {
    let mut h = HistoryStore::new();
    let cached = vec![String::from("chat")];
    let today = Date::new(5, 3, 2024);
    let appended = adding_word_to_historic(&String::from("chien"), &mut h, &cached, today);
    assert!(appended);
    let last = h.last().unwrap();
    assert_eq!(last.word, "chien");
    assert_eq!(last.date, today);
}

#[test]
fn last_found_word_comes_off_the_last_line() {
    let line = String::from("chien : 05-03-2024");
    let r = WordGetter::get_last_found_word(Some(&line)).unwrap().unwrap();
    assert_eq!(r.0, "chien");
    assert_eq!(r.1, Date::new(5, 3, 2024));

    assert!(WordGetter::get_last_found_word(None).unwrap().is_none());

    let bad = String::from("invalid end of file");
    assert_eq!(
        WordGetter::get_last_found_word(Some(&bad)),
        Err(EngineError::MalformedHistory)
    );
}
