use rubs::entropy::word_count;
use rubs::keys::action_for;
use rubs::keys::Action;
use rubs::keys::Key;
use rubs::generate;
use rubs::GenerateError;
use rubs::PassphraseInfo;
use rubs::WordSet;

fn numbered_wordlist(n: usize) -> WordSet {
    let mut set = WordSet::new();
    for i in 0..n {
        set.insert(format!("word{i}"));
    }
    set
}

fn wordlist_of(words: &[&str]) -> WordSet {
    let mut set = WordSet::new();
    for w in words {
        set.insert(w.to_string());
    }
    set
}

fn bits_per_word(info: &PassphraseInfo) -> f64 {
    (info.wordlist_size as f64).log2()
}

fn total_bits(info: &PassphraseInfo) -> f64 {
    info.words.len() as f64 * bits_per_word(info)
}

#[test]
fn generates_correct_word_count() {
    let wordlist = numbered_wordlist(1000);
    let info = generate(64, &wordlist).unwrap();

    // 1000 words = ~9.97 bits per word, so 64 bits needs 7 words
    assert!(total_bits(&info) >= 64.0);
    assert_eq!(info.words.len(), 7);
}

#[test]
fn entropy_calculation() {
    let wordlist = numbered_wordlist(7776);
    let info = generate(64, &wordlist).unwrap();

    // 7776 words = 12.925 bits per word
    let expected_bpw = (7776f64).log2();
    assert_eq!(info.wordlist_size, 7776);
    assert!((bits_per_word(&info) - expected_bpw).abs() < 0.001);
    assert_eq!(info.words.len(), 5);
}

#[test]
fn passphrase_string_format() {
    let wordlist = numbered_wordlist(1000);
    let info = generate(32, &wordlist).unwrap();

    let passphrase = info.passphrase();
    let word_count = passphrase.split_whitespace().count();
    assert_eq!(word_count, info.words.len());
}

#[test]
#[should_panic(expected = "wordlist cannot be empty")]
fn panics_on_empty_wordlist() {
    let wordlist = WordSet::new();
    generate(64, &wordlist).expect("wordlist cannot be empty");
}

#[test]
fn empty_wordlist_is_an_error_for_any_target() {
    let wordlist = WordSet::new();
    for bits in [0u32, 1, 64, u32::MAX] {
        assert!(matches!(generate(bits, &wordlist), Err(GenerateError::EmptyWordlist)));
    }
}

#[test]
fn text_splits_back_into_the_words() {
    let wordlist = numbered_wordlist(1000);
    let info = generate(64, &wordlist).unwrap();
    let text = info.passphrase();
    let tokens: Vec<&str> = text.split_whitespace().collect();
    assert_eq!(tokens.len(), info.words.len());
    for (t, w) in tokens.iter().zip(info.words.iter()) {
        assert_eq!(t, w);
    }
    assert!(!text.starts_with(' '));
    assert!(!text.ends_with(' '));
    assert!(!text.contains("  "));
    assert!(!text.contains('\n'));
}

#[test]
fn passphrase_joins_with_single_spaces() {
    let info = PassphraseInfo {
        wordlist_size: 3,
        words: vec!["correct".to_string(), "horse".to_string(), "battery".to_string()],
    };
    assert_eq!(info.passphrase(), "correct horse battery");
    let empty = PassphraseInfo { wordlist_size: 3, words: vec![] };
    assert_eq!(empty.passphrase(), "");
    let one = PassphraseInfo { wordlist_size: 3, words: vec!["staple".to_string()] };
    assert_eq!(one.passphrase(), "staple");
}

#[test]
fn words_are_distinct_members_of_the_list() {
    let wordlist = numbered_wordlist(50);
    for _ in 0..200 {
        let info = generate(200, &wordlist).unwrap();
        assert_eq!(info.words.len(), 36);
        for (i, w) in info.words.iter().enumerate() {
            assert!(wordlist.contains(w));
            assert!(!info.words[i + 1..].contains(w));
        }
    }
}

#[test]
fn word_count_grows_with_the_target() {
    let wordlist = numbered_wordlist(1000);
    let mut last = 0;
    for bits in 0..=120u32 {
        let info = generate(bits, &wordlist).unwrap();
        assert!(info.words.len() >= last);
        last = info.words.len();
    }
    assert_eq!(last, 13);
}

#[test]
fn small_list_is_clamped() {
    let wordlist = wordlist_of(&["apple", "banana", "cherry"]);
    let info = generate(64, &wordlist).unwrap();
    assert_eq!(info.words.len(), 3);
    assert!(total_bits(&info) < 64.0);
    let mut words = info.words.clone();
    words.sort();
    assert_eq!(words, vec!["apple", "banana", "cherry"]);
}

#[test]
fn zero_bits_gives_no_words() {
    let wordlist = numbered_wordlist(10);
    let info = generate(0, &wordlist).unwrap();
    assert!(info.words.is_empty());
    assert_eq!(info.passphrase(), "");
    assert_eq!(info.wordlist_size, 10);
}

#[test]
fn single_word_list() {
    let wordlist = wordlist_of(&["only"]);
    assert_eq!(generate(0, &wordlist).unwrap().words.len(), 0);
    let info = generate(64, &wordlist).unwrap();
    assert_eq!(info.words, vec!["only"]);
    assert_eq!(bits_per_word(&info), 0.0);
}

#[test]
fn word_count_exact_values() {
    assert_eq!(word_count(1000, 64), 7);
    assert_eq!(word_count(7776, 64), 5);
    assert_eq!(word_count(7776, 65), 6);
    assert_eq!(word_count(1024, 20), 2);
    assert_eq!(word_count(1024, 21), 3);
    assert_eq!(word_count(2, 64), 2);
    assert_eq!(word_count(3, 64), 3);
    assert_eq!(word_count(1, 0), 0);
    assert_eq!(word_count(1, 1), 1);
    assert_eq!(word_count(0, 5), 0);
    assert_eq!(word_count(7776, u32::MAX), 7776);
    assert_eq!(word_count(100_000, u32::MAX), 100_000);
    assert_eq!(word_count(1000, 9955), 999);
    assert_eq!(word_count(1000, 9965), 1000);
    assert_eq!(word_count(1000, 9990), 1000);
    assert_eq!(word_count(usize::MAX, 63), 1);
    assert_eq!(word_count(usize::MAX, 64), 2);
}

#[test]
fn single_word_draws_are_roughly_uniform() {
    let words = ["a", "b", "c", "d", "e", "f", "g", "h", "i", "j"];
    let wordlist = wordlist_of(&words);
    let trials = 10_000;
    let mut counts = [0usize; 10];
    for _ in 0..trials {
        let info = generate(3, &wordlist).unwrap();
        assert_eq!(info.words.len(), 1);
        let pos = words.iter().position(|w| *w == info.words[0]).unwrap();
        counts[pos] += 1;
    }
    let expected = trials as f64 / 10.0;
    let chi2: f64 = counts
        .iter()
        .map(|&c| (c as f64 - expected).powi(2) / expected)
        .sum();
    // 9 degrees of freedom: 27.88 is the 0.001 critical value.
    assert!(chi2 < 27.88, "chi-square {chi2} for counts {counts:?}");
}

#[test]
fn key_actions() {
    assert_eq!(action_for(Key::Char('q')), Action::Quit);
    assert_eq!(action_for(Key::Esc), Action::Quit);
    assert_eq!(action_for(Key::Char(' ')), Action::Regenerate);
    assert_eq!(action_for(Key::Char('r')), Action::Regenerate);
    assert_eq!(action_for(Key::Enter), Action::Regenerate);
    assert_eq!(action_for(Key::Char('x')), Action::Ignore);
    assert_eq!(action_for(Key::Other), Action::Ignore);
}
