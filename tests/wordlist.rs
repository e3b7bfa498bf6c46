use rubs::is_valid_word;
use rubs::load_bundled;
use rubs::load_wordlists;
use rubs::words_from_text;
use rubs::WordSet;

#[test]
fn bundled_wordlist_loads() {
    let words = load_bundled();
    // EFF list has 7776 entries, but 4 contain hyphens (drop-down, felt-tip, t-shirt, yo-yo)
    // which are filtered out by our lowercase-only validation
    assert_eq!(
        words.len(),
        7772,
        "EFF large wordlist should have 7772 valid words"
    );
}

#[test]
fn bundled_wordlist_contains_expected_words() {
    let words = load_bundled();
    assert!(words.contains("abacus"));
    assert!(words.contains("zoom"));
}

#[test]
fn valid_word_checks() {
    assert!(is_valid_word("hello"));
    assert!(is_valid_word("abacus"));
    assert!(!is_valid_word("Hello")); // uppercase
    assert!(!is_valid_word("hello1")); // digit
    assert!(!is_valid_word("hello-world")); // hyphen
    assert!(!is_valid_word("")); // empty
}

#[test]
fn bundled_wordlist_drops_hyphenated_entries() {
    let words = load_bundled();
    assert!(!words.contains("drop-down"));
    assert!(!words.contains("yo-yo"));
    assert!(words.contains("zebra"));
}

#[test]
fn text_words_are_lowercased_and_filtered() {
    let words = words_from_text("  Hello WORLD\thello-world abc1\n zoom hello\r\n");
    assert_eq!(words.len(), 3);
    assert!(words.contains("hello"));
    assert!(words.contains("world"));
    assert!(words.contains("zoom"));
    assert!(!words.contains("Hello"));
    assert!(!words.contains("hello-world"));
}

#[test]
fn empty_text_gives_no_words() {
    assert!(words_from_text("").is_empty());
    assert!(words_from_text(" \n\t 123 ").is_empty());
}

#[test]
fn wordlists_are_merged_by_union() {
    let texts = vec!["apple banana".to_string(), "banana Cherry".to_string()];
    let words = load_wordlists(&texts);
    assert_eq!(words.len(), 3);
    assert!(words.contains("apple"));
    assert!(words.contains("banana"));
    assert!(words.contains("cherry"));
}

#[test]
fn no_wordlists_means_the_bundled_one() {
    let words = load_wordlists(&Vec::new());
    assert_eq!(words.len(), 7772);
}

#[test]
fn word_set_keeps_words_once() {
    let mut set = WordSet::new();
    assert!(set.is_empty());
    assert!(set.insert("alpha".to_string()));
    assert!(!set.insert("alpha".to_string()));
    assert!(set.insert("beta".to_string()));
    assert_eq!(set.len(), 2);
    let mut other = WordSet::new();
    other.insert("beta".to_string());
    other.insert("gamma".to_string());
    set.extend(&other);
    assert_eq!(set.len(), 3);
    assert!(set.contains("gamma"));
    assert!(!set.contains("delta"));
    assert_eq!(set.to_vec(), vec!["alpha", "beta", "gamma"]);
}
