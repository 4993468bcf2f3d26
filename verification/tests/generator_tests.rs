use markov::generator::EmptyModelError;
use markov::indexer::index;
use markov::model::WordsDB;

fn lines(v: &[&str]) -> Vec<String> {
    v.iter().map(|s| s.to_string()).collect()
}

fn build_db(v: &[&str]) -> WordsDB {
    let mut db = index(&lines(v));
    db.prepare_db_for_work();
    db
}

#[test]
fn empty_corpus_fails_generation() {
    let db = build_db(&[]);
    assert_eq!(db.gen_sentence(10), Err(EmptyModelError));
}

#[test]
fn whitespace_corpus_fails_generation() {
    let db = build_db(&["", "   ", "\t"]);
    assert!(db.first_words.is_empty());
    assert_eq!(db.gen_words(10), Err(EmptyModelError));
    assert_eq!(db.gen_sentence(10), Err(EmptyModelError));
}

#[test]
fn single_word_model_generates_that_word() {
    let db = build_db(&["x"]);
    assert_eq!(db.first_words, vec!["x".to_string()]);
    assert_eq!(db.gen_sentence(5), Ok("x".to_string()));
}

#[test]
fn hello_world_generation_terminates() {
    let db = build_db(&["Hello world. Goodbye world."]);
    for _ in 0..20 {
        let words = db.gen_words(10).expect("model has starters");
        assert_eq!(words.len(), 2);
        assert!(words[0] == "Hello" || words[0] == "Goodbye");
        assert_eq!(words[1], "world.");
        let sentence = db.gen_sentence(10).expect("model has starters");
        assert!(sentence == "Hello world." || sentence == "Goodbye world.");
    }
}

#[test]
fn generated_words_follow_recorded_transitions() {
    let db = build_db(&["the cat sat. the dog ran. a cat ran away."]);
    for _ in 0..50 {
        let words = db.gen_words(20).expect("model has starters");
        assert!(!words.is_empty());
        assert!(words.len() <= 20);
        assert!(db.first_words.contains(&words[0]));
        for pair in words.windows(2) {
            let info = db.get(&pair[0]).expect("every generated word has an entry");
            assert!(info.next_words.contains(&pair[1]));
        }
        let last = db
            .get(words.last().expect("sentence is never empty"))
            .expect("every generated word has an entry");
        assert!(words.len() == 20 || last.next_words.is_empty());
    }
}

#[test]
fn cyclic_corpus_respects_word_bound() {
    let db = build_db(&["a b a c"]);
    for _ in 0..20 {
        let words = db.gen_words(50).expect("model has starters");
        assert!(words.len() <= 50);
        assert_eq!(words[0], "a");
        for pair in words.windows(2) {
            let info = db.get(&pair[0]).expect("entry");
            assert!(info.next_words.contains(&pair[1]));
        }
        let sentence = db.gen_sentence(50).expect("model has starters");
        let parts: Vec<&str> = sentence.split(' ').collect();
        assert!(parts.len() <= 50);
    }
}

#[test]
fn sentence_joins_words_with_single_spaces() {
    let db = build_db(&["p q r"]);
    let sentence = db.gen_sentence(10).expect("model has starters");
    assert_eq!(sentence, "p q r");
}
