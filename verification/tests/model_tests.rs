use markov::indexer::index;
use markov::model::WordsDB;
use markov::tokenize::tokenize;

fn lines(v: &[&str]) -> Vec<String> {
    v.iter().map(|s| s.to_string()).collect()
}

fn build_db(v: &[&str]) -> WordsDB {
    let mut db = index(&lines(v));
    db.prepare_db_for_work();
    db
}

#[test]
fn tokenize_splits_on_whitespace() {
    let toks = tokenize("  Hello \t world.  ");
    assert_eq!(toks, vec!["Hello".to_string(), "world.".to_string()]);
    assert_eq!(tokenize(""), Vec::<String>::new());
    assert_eq!(tokenize("   \t "), Vec::<String>::new());
    assert_eq!(tokenize("one"), vec!["one".to_string()]);
}

#[test]
fn hello_world_corpus() {
    let db = build_db(&["Hello world. Goodbye world."]);

    let hello = db.get(&"Hello".to_string()).expect("entry for Hello");
    assert_eq!(hello.start_count, 1);
    assert_eq!(hello.mid_count, 0);
    assert_eq!(hello.end_count, 0);
    assert_eq!(hello.next_words, vec!["world.".to_string()]);

    let world = db.get(&"world.".to_string()).expect("entry for world.");
    assert_eq!(world.end_count, 2);
    assert_eq!(world.start_count, 0);
    assert_eq!(world.mid_count, 0);
    assert!(world.next_words.is_empty());

    let goodbye = db.get(&"Goodbye".to_string()).expect("entry for Goodbye");
    assert_eq!(goodbye.start_count, 1);
    assert_eq!(goodbye.next_words, vec!["world.".to_string()]);

    assert_eq!(
        db.first_words,
        vec!["Goodbye".to_string(), "Hello".to_string()]
    );
}

#[test]
fn structure_is_deterministic() {
    let corpus = ["Hello world. Goodbye world.", "a b a c", "", "  x. y"];
    let db1 = build_db(&corpus);
    let db2 = build_db(&corpus);
    assert_eq!(db1.words, db2.words);
    assert_eq!(db1.first_words, db2.first_words);
}

#[test]
fn counters_cover_occurrences() {
    let corpus = ["Hello world. Goodbye world."];
    let db = build_db(&corpus);
    let mut stream: Vec<String> = Vec::new();
    for line in lines(&corpus) {
        stream.extend(tokenize(&line));
    }
    for (word, info) in &db.words {
        let occurrences = stream.iter().filter(|t| *t == word).count() as u64;
        let sum = info.start_count + info.mid_count + info.end_count;
        assert!(sum >= occurrences);
        assert_eq!(sum, occurrences);
    }
}

#[test]
fn starters_match_start_counts() {
    let db = build_db(&["Hello world. Goodbye world.", "a b a c"]);
    for (word, info) in &db.words {
        assert_eq!(info.start_count > 0, db.first_words.contains(word));
    }
    for starter in &db.first_words {
        let info = db.get(starter).expect("starter has an entry");
        assert!(info.start_count > 0);
    }
}

#[test]
fn no_empty_successors() {
    let db = build_db(&["Hello world. Goodbye world.", "a b a c", "x", " y "]);
    for (_, info) in &db.words {
        for succ in &info.next_words {
            assert!(!succ.is_empty());
        }
    }
}

#[test]
fn successors_keep_first_seen_order() {
    let db = build_db(&["a b a c"]);
    let a = db.get(&"a".to_string()).expect("entry for a");
    assert_eq!(a.next_words, vec!["b".to_string(), "c".to_string()]);
    assert_eq!(a.start_count, 1);
    assert_eq!(a.mid_count, 1);
    let b = db.get(&"b".to_string()).expect("entry for b");
    assert_eq!(b.next_words, vec!["a".to_string()]);
    assert_eq!(b.mid_count, 1);
    let c = db.get(&"c".to_string()).expect("entry for c");
    assert!(c.next_words.is_empty());
    assert_eq!(db.first_words, vec!["a".to_string()]);
}

#[test]
fn start_flag_persists_across_lines() {
    let db = build_db(&["a b", "c. d"]);
    let a = db.get(&"a".to_string()).expect("entry for a");
    assert_eq!(a.start_count, 1);
    let b = db.get(&"b".to_string()).expect("entry for b");
    assert_eq!(b.start_count, 0);
    assert_eq!(b.mid_count, 1);
    let c = db.get(&"c.".to_string()).expect("entry for c.");
    assert_eq!(c.start_count, 0);
    assert_eq!(c.end_count, 1);
    assert!(c.next_words.is_empty());
    let d = db.get(&"d".to_string()).expect("entry for d");
    assert_eq!(d.start_count, 1);
    assert_eq!(db.first_words, vec!["a".to_string(), "d".to_string()]);
}

#[test]
fn starters_are_sorted_by_scalar_value() {
    // Capital letters sort before lowercase ones, word by word.
    let db = build_db(&["banana. Apple. apple. Zebra."]);
    assert_eq!(
        db.first_words,
        vec![
            "Apple.".to_string(),
            "Zebra.".to_string(),
            "apple.".to_string(),
            "banana.".to_string()
        ]
    );
}

#[test]
fn lookup_of_unknown_word_is_none() {
    let db = build_db(&["Hello world."]);
    assert!(db.get(&"missing".to_string()).is_none());
    assert!(db.get(&"hello".to_string()).is_none());
    assert!(db.get(&"".to_string()).is_none());
}

#[test]
fn one_word_sentence_counts_both_positions() {
    let db = build_db(&["Hello. there"]);
    let hello = db.get(&"Hello.".to_string()).expect("entry for Hello.");
    assert_eq!(hello.start_count, 1);
    assert_eq!(hello.end_count, 1);
    assert_eq!(hello.next_words, vec!["there".to_string()]);
    let there = db.get(&"there".to_string()).expect("entry for there");
    assert_eq!(there.start_count, 1);
}
