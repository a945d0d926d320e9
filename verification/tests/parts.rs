use typeracer::attempt::TextManager;

fn spans(t: &TextManager) -> Vec<String> {
    t.get_text_parts().into_iter().map(|v| v.into_iter().collect()).collect()
}

#[test]
fn basic_parts() {
    let mut t = TextManager::new("Hello, world!".chars().collect());

    t.type_char('H', 0);
    t.type_char('e', 1);
    t.type_char('l', 2);

    t.type_char('x', 3);

    t.type_char('o', 4);

    assert_eq!(spans(&t), vec!["Hel", "l", "o", ", world!"]);
}

#[test]
fn basic_del() {
    let mut t = TextManager::new("Hello, world!".chars().collect());

    t.type_char('H', 0);
    t.type_char('e', 1);

    t.type_char('l', 2);
    t.del_char();

    t.type_char('l', 3);

    t.type_char('x', 4);
    t.del_char();

    assert_eq!(spans(&t), vec!["Hel", "lo, world!"]);
}

#[test]
fn unicode_parts() {
    let mut t = TextManager::new("Здравей, свят!".chars().collect());

    t.type_char('З', 0);
    t.type_char('д', 1);
    t.type_char('р', 2);

    t.type_char('ь', 3);

    t.type_char('в', 4);

    assert_eq!(spans(&t), vec!["Здр", "а", "в", "ей, свят!"]);
}

#[test]
fn unicode_parts_mixed() {
    let mut t = TextManager::new("Здравей, свят!".chars().collect());

    t.type_char('З', 0);

    t.type_char('d', 1);
    t.type_char('r', 2);
    t.type_char('ь', 3);

    t.type_char('в', 4);

    let parts = spans(&t);
    assert_eq!(parts, vec!["З", "дра", "в", "ей, свят!"]);
}

#[test]
fn unicode_parts_mixed_reverse() {
    let mut t = TextManager::new("Hello, world!".chars().collect());

    t.type_char('H', 0);

    t.type_char('б', 1);
    t.type_char('l', 2);
    t.type_char('l', 3);

    t.type_char('ь', 4);
    t.type_char(',', 5);

    let parts = spans(&t);
    assert_eq!(parts, vec!["H", "e", "ll", "o", ",", " world!"]);
}

#[test]
fn parts_empty() {
    let t = TextManager::new("Hello".chars().collect());

    assert_eq!(spans(&t), vec!["", "Hello"]);
}

#[test]
fn parts_full_text_matched() {
    let mut t = TextManager::new("Hi!".chars().collect());

    t.type_char('H', 0);
    t.type_char('i', 1);
    t.type_char('!', 2);

    assert_eq!(spans(&t), vec!["Hi!", ""]);
}

#[test]
fn parts_alternate_on_mismatch() {
    let mut t = TextManager::new("cat".chars().collect());

    t.type_char('c', 0);
    t.type_char('x', 1);
    t.type_char('t', 2);

    assert_eq!(spans(&t), vec!["c", "a", "t", ""]);
}

#[test]
fn parts_ignore_extra_input() {
    let mut t = TextManager::new("a".chars().collect());

    t.type_char('a', 0);
    t.type_char('b', 1);

    assert_eq!(spans(&t), vec!["a", ""]);
}
