use typeracer::attempt::TextManager;

#[test]
fn accuracy() {
    let mut t = TextManager::new("Hello".chars().collect());

    t.type_char('H', 0);
    t.type_char('x', 1);
    t.del_char();
    t.type_char('e', 2);
    t.type_char('l', 3);
    t.type_char('x', 4);
    t.type_char('x', 5);

    let acc = t.get_accuracy().unwrap();
    assert!((acc as f64 / 1000.0 - 0.6).abs() < 0.0001);
    assert_eq!(acc, 600);
}

#[test]
fn error_letters() {
    let mut t = TextManager::new("Hello world!".chars().collect());

    t.type_char('H', 0);
    t.type_char('x', 1);
    t.type_char('l', 2);
    t.type_char('l', 3);
    t.type_char('x', 4);
    t.type_char(' ', 5);
    t.type_char('w', 6);
    t.type_char('x', 7);

    assert_eq!(t.get_most_error_letters()[..2], vec![('o', 2), ('e', 1)]);
}

#[test]
fn slowest_letters() {
    let mut t = TextManager::new("Hello world!".chars().collect());

    t.type_char('H', 0);
    t.type_char('e', 100);
    t.type_char('l', 200);
    t.type_char('l', 500);
    t.type_char('o', 750);
    t.type_char(' ', 750);
    t.type_char('w', 750);
    t.type_char('o', 1000);

    let letters = t.get_slowest_letters();

    assert_eq!(letters[0].0, 'o');
    assert_eq!(letters[1].0, 'l');
    assert_eq!(letters[2].0, 'e');
}

#[test]
fn slowest_letters_retype() {
    let mut t = TextManager::new("Hello".chars().collect());

    t.type_char('H', 0);

    t.type_char('e', 100);
    t.del_char();
    t.type_char('e', 100);
    t.del_char();
    t.type_char('e', 100);
    t.del_char();
    t.type_char('e', 100);
    t.del_char();
    t.type_char('e', 100);

    t.type_char('l', 150);

    let letters = t.get_slowest_letters();

    assert_eq!(letters[0].0, 'e');
    assert_eq!(letters[1].0, 'l');
    assert_eq!(letters[2].0, 'H');
}

#[test]
fn slowest_letters_tie_breaks_by_code_point() {
    let mut t = TextManager::new("ba".chars().collect());

    t.type_char('b', 0);
    t.type_char('a', 0);

    let letters = t.get_slowest_letters();
    assert_eq!(letters, vec![('a', 0), ('b', 0)]);
}

#[test]
fn ranked_lists_cover_typed_code_points() {
    let mut t = TextManager::new("abc".chars().collect());

    t.type_char('a', 0);
    t.type_char('x', 1);

    let mut slow: Vec<char> = t.get_slowest_letters().into_iter().map(|p| p.0).collect();
    let mut err: Vec<char> = t.get_most_error_letters().into_iter().map(|p| p.0).collect();
    slow.sort();
    err.sort();
    assert_eq!(slow, vec!['a', 'b']);
    assert_eq!(err, vec!['a', 'b']);
    assert_eq!(t.get_most_error_letters()[0], ('b', 1));
}

#[test]
fn metrics_undefined_before_first_keystroke() {
    let t = TextManager::new("abc".chars().collect());

    assert_eq!(t.get_accuracy(), None);
    assert_eq!(t.get_cpm(1000), None);
    assert_eq!(t.get_wpm(1000), None);
    assert_eq!(t.end_run(1000, 42), None);
}

#[test]
fn rates_undefined_at_zero_elapsed() {
    let mut t = TextManager::new("abc".chars().collect());

    t.type_char('a', 500);
    assert_eq!(t.get_cpm(500), None);
    assert_eq!(t.get_wpm(500), None);
    assert!(t.get_accuracy().is_some());
}

#[test]
fn cpm_counts_correct_characters_per_minute() {
    let mut t = TextManager::new("ab cd".chars().collect());

    t.type_char('a', 0);
    t.type_char('b', 1000);

    // Two correct code points over one minute: 2.0 cpm, in milli-units.
    assert_eq!(t.get_cpm(60000), Some(2000));
}

#[test]
fn wpm_counts_completed_words() {
    let mut t = TextManager::new("ab cd".chars().collect());

    t.type_char('a', 0);
    t.type_char('b', 1000);

    // The word "ab" is fully and correctly typed: one word per minute.
    assert_eq!(t.get_wpm(60000), Some(1000));

    // Half of the word "ab" typed correctly scores half a word.
    let mut h = TextManager::new("ab cd".chars().collect());
    h.type_char('a', 0);
    h.type_char('x', 1000);
    assert_eq!(h.get_wpm(60000), Some(500));
}

#[test]
fn wpm_ignores_unfinished_words() {
    let mut t = TextManager::new("ab cd".chars().collect());

    t.type_char('a', 0);
    t.type_char('b', 100);
    t.type_char(' ', 200);
    t.type_char('c', 300);

    // "cd" is not finished, so only "ab" counts.
    assert_eq!(t.get_wpm(60000), Some(1000));
}

#[test]
fn end_run_builds_the_record() {
    let mut t = TextManager::new("ab".chars().collect());

    t.type_char('a', 0);
    t.type_char('b', 30000);

    let rec = t.end_run(60000, 1234).unwrap();
    assert_eq!(rec.time_s, 1234);
    assert_eq!(rec.accuracy_milli, 1000);
    assert_eq!(rec.cpm_milli, 2000);
    assert_eq!(rec.wpm_milli, 1000);
}

#[test]
fn type_then_delete_restores_counts() {
    let mut t = TextManager::new("ab".chars().collect());

    t.type_char('a', 0);
    let before_err = t.get_most_error_letters();
    let before_acc = t.get_accuracy();

    t.type_char('b', 10);
    t.del_char();

    assert_eq!(t.get_accuracy(), before_acc);
    assert_eq!(t.get_most_error_letters().len(), 2);
    let hits_b: Vec<(char, u64)> =
        t.get_most_error_letters().into_iter().filter(|p| p.0 == 'b').collect();
    assert_eq!(hits_b, vec![('b', 0)]);
    assert_eq!(before_err.len(), 1);
}

#[test]
fn delete_on_empty_is_a_no_op() {
    let mut t = TextManager::new("ab".chars().collect());

    t.del_char();
    assert_eq!(t.get_accuracy(), None);

    t.type_char('a', 0);
    t.del_char();
    t.del_char();
    assert_eq!(t.get_accuracy(), None);
}

#[test]
fn typed_never_exceeds_target() {
    let mut t = TextManager::new("ab".chars().collect());

    t.type_char('a', 0);
    t.type_char('b', 1);
    t.type_char('c', 2);
    t.type_char('d', 3);

    // Extra keystrokes are no-ops: accuracy still counts two of two.
    assert_eq!(t.get_accuracy(), Some(1000));
}

#[test]
fn wpm_counts_unicode_words() {
    let mut t = TextManager::new("аб в".chars().collect());

    t.type_char('а', 0);
    t.type_char('б', 1000);

    // Cyrillic letters are alphanumeric, so the word counts once finished.
    assert_eq!(t.get_wpm(60000), Some(1000));
}
