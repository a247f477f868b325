use divisor_db::dictionary::{collect_words, normalize_word, WordSet};

fn lines(items: &[&str]) -> Vec<String> {
    items.iter().map(|s| s.to_string()).collect()
}

#[test]
fn normalize_trims_and_lowers() {
    assert_eq!(normalize_word("  Hello \n"), "hello");
    assert_eq!(normalize_word("WORD\r\n"), "word");
    assert_eq!(normalize_word("\tMiXeD cAsE\t"), "mixed case");
    assert_eq!(normalize_word("already"), "already");
    assert_eq!(normalize_word("\u{2003}ÄÖÜ\u{a0}"), "äöü");
}

#[test]
fn blank_line_gives_the_empty_word() {
    assert_eq!(normalize_word("\n"), "");
    assert_eq!(normalize_word(""), "");
    assert_eq!(collect_words(&lines(&["a\n", "\n", "b\n", "   \n"])), lines(&["a", "", "b"]));
}

#[test]
fn each_word_is_kept_once_in_first_order() {
    let words = collect_words(&lines(&["Apple\n", "pear\n", "APPLE\n", " apple \n", "Pear", "fig\n"]));
    assert_eq!(words, lines(&["apple", "pear", "fig"]));
    assert_eq!(collect_words(&Vec::new()), Vec::<String>::new());
}

#[test]
fn word_set_keeps_each_word_once() {
    for buckets in [0usize, 1, 2, 7, 1000] {
        let mut set = WordSet::with_buckets(buckets);
        assert_eq!(set.len(), 0);
        assert!(!set.contains(&"".to_string()));
        for word in ["pear", "apple", "pear", "", "fig", "apple", ""] {
            set.insert(word.to_string());
        }
        assert_eq!(set.len(), 4);
        assert!(set.contains(&"pear".to_string()));
        assert!(set.contains(&"".to_string()));
        assert!(!set.contains(&"Pear".to_string()));
        assert!(!set.contains(&"plum".to_string()));
        assert_eq!(set.into_words(), lines(&["pear", "apple", "", "fig"]));
    }
}

#[test]
fn many_words_in_few_buckets() {
    let mut set = WordSet::with_buckets(3);
    for round in 0..3 {
        for n in 0..500 {
            set.insert(format!("word{}", n));
            assert_eq!(set.len(), if round == 0 { n + 1 } else { 500 });
        }
    }
    let words = set.into_words();
    for (n, word) in words.iter().enumerate() {
        assert_eq!(*word, format!("word{}", n));
    }
}
