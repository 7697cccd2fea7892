use cemantix_ia::word_record::CemantixWord;
use std::cmp::Ordering;

#[test]
fn cemantix_word_order() {
    let w1 = CemantixWord::new(String::new(), 0, 520);
    let w2 = CemantixWord::new(String::new(), 0, 230);

    assert_eq!(w1.partial_cmp(&w2), Some(Ordering::Greater));

    assert!(w1 > w2);
    assert!(w1 >= w2);
    assert!(w2 <= w1);
    assert!(w2 < w1);
}

#[test]
fn cemantix_word_eq() {
    let s1 = String::from("coucou");
    let s2 = String::from("lsdkfj");
    assert_ne!(s1, s2);
    let w1 = CemantixWord::new(s1, 0, 0);
    let w2 = CemantixWord::new(s2, 0, 0);

    assert_ne!(w1, w2)
}

#[test]
fn records_with_equal_word_compare_equal_whatever_the_score() {
    let a = CemantixWord::new(String::from("chat"), 1, 300);
    let b = CemantixWord::new(String::from("chat"), 9, 999);
    assert_eq!(a, b);
    assert_eq!(b, a);
}

#[test]
fn record_ordering_reads_the_score_alone() {
    let a = CemantixWord::new(String::from("zzz"), 0, 520);
    let b = CemantixWord::new(String::from("aaa"), 7, 230);
    assert_eq!(a.partial_cmp(&b), Some(Ordering::Greater));
    assert_eq!(b.partial_cmp(&a), Some(Ordering::Less));
    let c = CemantixWord::new(String::from("other"), 3, 520);
    assert_eq!(a.partial_cmp(&c), Some(Ordering::Equal));
    assert!(a != c);
}

#[test]
fn record_clone_keeps_every_field() {
    let a = CemantixWord::new(String::from("chien"), 2, 900);
    let b = a.clone_record();
    assert_eq!(b.word, "chien");
    assert_eq!(b.rank, 2);
    assert_eq!(b.score, 900);
}
