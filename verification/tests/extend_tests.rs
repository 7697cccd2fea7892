use cemantix_ia::extend::Extend;
use cemantix_ia::remove_useless_words::words_to_keep;
use cemantix_ia::word_record::BatchOutcome;
use cemantix_ia::words_getter::WordGetter;

#[test]
fn extend_new_keeps_the_source_file() {
    let e = Extend::new(String::from("liste.txt"));
    assert_eq!(e.source_file, "liste.txt");
}

#[test]
fn extension_skips_known_empty_and_repeated_words() {
    let e = Extend::new(String::from("liste.txt"));
    let existing = vec![String::from("chat"), String::from("chien")];
    let cache_lists = vec![
        vec![String::from("proche"), String::from("chat"), String::new()],
        vec![String::from("proche"), String::from("loin")],
    ];
    let added = e.extend_file(&existing, &cache_lists);
    assert_eq!(added, vec![String::from("proche"), String::from("loin")]);
}

#[test]
fn extension_of_nothing_adds_nothing() {
    let e = Extend::new(String::from("liste.txt"));
    let existing = vec![String::from("chat")];
    let added = e.extend_file(&existing, &Vec::new());
    assert!(added.is_empty());
}

#[test]
fn only_recognised_words_are_kept() {
    let outs = vec![
        BatchOutcome::new(String::from("chat"), Some(300)),
        BatchOutcome::new(String::from("xyzzy"), None),
        BatchOutcome::new(String::from("chien"), Some(-50)),
    ];
    let kept = words_to_keep(&outs);
    assert_eq!(kept, vec![String::from("chat"), String::from("chien")]);
}

#[test]
fn found_words_can_be_listed_with_exceptions() {
    let data = vec![
        String::from("chat"),
        String::from("chien"),
        String::from("table"),
    ];
    let except = vec![String::from("chien")];
    let r = WordGetter::get_all_found_words_except(data, &except);
    assert_eq!(r, vec![String::from("chat"), String::from("table")]);
}
