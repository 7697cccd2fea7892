use cemantix_ia::cache::CacheStore;
use cemantix_ia::error::EngineError;
use cemantix_ia::nearby::Nearby;
use cemantix_ia::word_record::BatchOutcome;
use cemantix_ia::word_record::CemantixWord;

fn record(word: &str, score: i64) -> CemantixWord {
    CemantixWord::new(String::from(word), 0, score)
}

#[test]
fn cache_create_twice_fails_and_keeps_the_content() {
    let mut cache = CacheStore::new();
    let first = vec![record("proche", 700), record("loin", 100)];
    assert!(cache.create(String::from("chien"), first).is_ok());

    let before = cache.load(&String::from("chien")).unwrap();

    let second = vec![record("autre", 999)];
    let r = cache.create(String::from("chien"), second);
    assert_eq!(r, Err(EngineError::CacheAlreadyExists));

    let after = cache.load(&String::from("chien")).unwrap();
    assert_eq!(before.len(), after.len());
    for k in 0..before.len() {
        assert_eq!(before[k].word, after[k].word);
        assert_eq!(before[k].rank, after[k].rank);
        assert_eq!(before[k].score, after[k].score);
    }
}

#[test]
fn cache_load_misses_an_absent_word() {
    let cache = CacheStore::new();
    assert!(cache.load(&String::from("chien")).is_none());
}

#[test]
fn merge_and_persist_keeps_existing_records_and_sorts() {
    let mut cache = CacheStore::new();
    let existing = vec![record("proche", 700), record("loin", 100)];
    cache.create(String::from("chien"), existing).unwrap();

    let fresh = vec![
        BatchOutcome::new(String::from("proche"), Some(999)),
        BatchOutcome::new(String::from("nouveau"), Some(400)),
        BatchOutcome::new(String::from("inconnu"), None),
    ];
    cache
        .merge_and_persist(&String::from("chien"), &fresh)
        .unwrap();

    let records = cache.load(&String::from("chien")).unwrap();
    // proche keeps its old score: an already-cached word is never rescored
    assert_eq!(records.len(), 3);
    assert_eq!(records[0].word, "proche");
    assert_eq!(records[0].score, 700);
    assert_eq!(records[1].word, "nouveau");
    assert_eq!(records[1].score, 400);
    assert_eq!(records[2].word, "loin");
    assert_eq!(records[2].score, 100);
}

#[test]
fn merge_and_persist_needs_an_entry() {
    let mut cache = CacheStore::new();
    let fresh = vec![BatchOutcome::new(String::from("x"), Some(10))];
    let r = cache.merge_and_persist(&String::from("chien"), &fresh);
    assert_eq!(r, Err(EngineError::CacheMissing));
}

#[test]
fn list_discovered_words_excludes_the_given_ones() {
    let mut cache = CacheStore::new();
    cache.create(String::from("chat"), vec![record("a", 1)]).unwrap();
    cache.create(String::from("chien"), vec![record("b", 2)]).unwrap();
    cache.create(String::from("table"), vec![record("c", 3)]).unwrap();

    let except = vec![String::from("chien")];
    let listed = cache.list_discovered_words(&except);
    assert_eq!(listed, vec![String::from("chat"), String::from("table")]);
}

#[test]
fn nearby_rejects_an_empty_payload() {
    let mut cache = CacheStore::new();
    let nearby = Nearby::new(String::from("chien"));
    let r = nearby.generate_nearby_word(Vec::new(), &mut cache);
    assert_eq!(r, Err(EngineError::EmptyNearbyPayload));
    assert!(!cache.contains(&String::from("chien")));
}

#[test]
fn nearby_persists_once_and_never_overwrites() {
    let mut cache = CacheStore::new();
    let nearby = Nearby::new(String::from("chien"));
    let r1 = nearby.generate_nearby_word(vec![record("proche", 700)], &mut cache);
    assert!(r1.is_ok());
    let r2 = nearby.generate_nearby_word(vec![record("autre", 1)], &mut cache);
    assert_eq!(r2, Err(EngineError::CacheAlreadyExists));
    let records = cache.load(&String::from("chien")).unwrap();
    assert_eq!(records.len(), 1);
    assert_eq!(records[0].word, "proche");
    assert_eq!(records[0].score, 700);
}
