use typeracer::attempt::TextManager;
use typeracer::categories::Categories;
use typeracer::history::{parse_log, render_record};

#[test]
fn perfect_short_run() {
    let mut t = TextManager::new("Hi!".chars().collect());

    t.type_char('H', 0);
    t.type_char('i', 50);
    t.type_char('!', 100);

    assert_eq!(t.get_accuracy(), Some(1000));
    // Three correct code points in one minute.
    assert_eq!(t.get_cpm(60000), Some(3000));

    let parts: Vec<String> =
        t.get_text_parts().into_iter().map(|v| v.into_iter().collect()).collect();
    assert_eq!(parts, vec!["Hi!", ""]);
}

#[test]
fn mismatch_in_the_middle() {
    let mut t = TextManager::new("cat".chars().collect());

    t.type_char('c', 0);
    t.type_char('x', 50);
    t.type_char('t', 100);

    let parts: Vec<String> =
        t.get_text_parts().into_iter().map(|v| v.into_iter().collect()).collect();
    assert_eq!(parts, vec!["c", "a", "t", ""]);
    assert_eq!(t.get_accuracy(), Some(666));
}

#[test]
fn run_record_survives_the_log() {
    let mut t = TextManager::new("ab".chars().collect());
    t.type_char('a', 0);
    t.type_char('b', 100);

    let record = t.end_run(60000, 777).unwrap();
    let line = render_record(&record);
    assert_eq!(parse_log(&line), Some(vec![record]));
}

#[test]
fn categories_keep_their_directory() {
    let c = Categories::new(String::from("./texts"));
    assert_eq!(c.dir(), "./texts");
}
