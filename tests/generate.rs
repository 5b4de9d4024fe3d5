use gen_passphrase::{compose, generate, random_word, PassphraseError};

const CUSTOM_DICTIONARY: &[&str] = &["this", "is", "my", "custom", "dictionary"];
const CUSTOM_DICTIONARY_2: &[&str] = &["wow", "another", "handmade", "book"];
const HELLO_DICTIONARY: &[&str] = &["hello", "bonjour", "hola", "ciao"];
const EMPTY_DICTIONARY: &[&str] = &[];

#[test]
fn empty() {
    let passphrase = generate(&[CUSTOM_DICTIONARY], 0, None).unwrap();
    assert!(passphrase.is_empty())
}

#[test]
fn one_dictionary() {
    let dictionaries = &[CUSTOM_DICTIONARY];
    let iterations = 2;
    let delimiter = "-";

    let passphrase = generate(dictionaries, iterations, Some(delimiter)).unwrap();

    assert!(!passphrase.is_empty());
    assert_eq!(passphrase.matches(delimiter).count(), iterations - 1);
}

#[test]
fn multiple_dictionaries() {
    let dictionaries = &[CUSTOM_DICTIONARY, CUSTOM_DICTIONARY_2];
    let iterations = 4;
    let delimiter = "_";

    let passphrase = generate(dictionaries, iterations, Some(delimiter)).unwrap();

    assert!(!passphrase.is_empty());
    assert_eq!(
        passphrase.matches(delimiter).count(),
        iterations * dictionaries.len() - 1
    );
}

#[test]
fn zero_iterations_ignore_empty_dictionaries() {
    let passphrase = generate(&[CUSTOM_DICTIONARY, EMPTY_DICTIONARY], 0, Some("-")).unwrap();
    assert_eq!(passphrase, "");
}

#[test]
fn no_dictionaries_give_empty_passphrase() {
    assert_eq!(generate(&[], 3, Some("-")).unwrap(), "");
    assert_eq!(generate(&[], 3, None).unwrap(), "");
}

#[test]
fn empty_dictionary_fails() {
    let r = generate(&[CUSTOM_DICTIONARY, EMPTY_DICTIONARY], 1, Some("-"));
    assert_eq!(r, Err(PassphraseError::InvalidDictionary));
}

#[test]
fn empty_first_dictionary_fails() {
    let r = generate(&[EMPTY_DICTIONARY, CUSTOM_DICTIONARY], 3, None);
    assert_eq!(r, Err(PassphraseError::InvalidDictionary));
}

#[test]
fn one_word_without_delimiter() {
    let passphrase = generate(&[CUSTOM_DICTIONARY], 1, None).unwrap();
    assert!(CUSTOM_DICTIONARY.contains(&passphrase.as_str()));
}

#[test]
fn two_words_with_delimiter() {
    let passphrase = generate(&[HELLO_DICTIONARY], 2, Some("-")).unwrap();
    let parts: Vec<&str> = passphrase.split('-').collect();
    assert_eq!(parts.len(), 2);
    assert!(HELLO_DICTIONARY.contains(&parts[0]));
    assert!(HELLO_DICTIONARY.contains(&parts[1]));
}

#[test]
fn words_come_from_their_dictionary_position() {
    let passphrase = generate(&[HELLO_DICTIONARY, CUSTOM_DICTIONARY], 3, Some(" ")).unwrap();
    let parts: Vec<&str> = passphrase.split(' ').collect();
    assert_eq!(parts.len(), 6);
    for (k, part) in parts.iter().enumerate() {
        if k % 2 == 0 {
            assert!(HELLO_DICTIONARY.contains(part));
        } else {
            assert!(CUSTOM_DICTIONARY.contains(part));
        }
    }
    assert!(!passphrase.starts_with(' '));
    assert!(!passphrase.ends_with(' '));
}

#[test]
fn single_word_dictionaries_are_deterministic() {
    let a: &'static [&'static str] = &["ab"];
    let b: &'static [&'static str] = &["cd"];
    assert_eq!(generate(&[a, b], 2, None).unwrap(), "abcdabcd");
    assert_eq!(generate(&[a, b], 2, Some("-")).unwrap(), "ab-cd-ab-cd");
    assert_eq!(generate(&[a, b], 1, Some("::")).unwrap(), "ab::cd");
    assert_eq!(generate(&[a], 3, Some("+")).unwrap(), "ab+ab+ab");
}

#[test]
fn compose_places_words_and_delimiters() {
    let dictionaries = &[HELLO_DICTIONARY, CUSTOM_DICTIONARY];
    let s = compose(dictionaries, 2, Some("-"), &[1, 3, 0, 4]);
    assert_eq!(s, "bonjour-custom-hello-dictionary");
    let s = compose(dictionaries, 2, None, &[1, 3, 0, 4]);
    assert_eq!(s, "bonjourcustomhellodictionary");
    let s = compose(dictionaries, 0, Some("-"), &[]);
    assert_eq!(s, "");
    let s = compose(&[HELLO_DICTIONARY], 1, Some("-"), &[3]);
    assert_eq!(s, "ciao");
}

#[test]
fn random_word_is_from_dictionary() {
    for _ in 0..100 {
        let w = random_word(CUSTOM_DICTIONARY).unwrap();
        assert!(CUSTOM_DICTIONARY.contains(&w));
    }
}

#[test]
fn random_word_fails_on_empty_dictionary() {
    assert_eq!(random_word(EMPTY_DICTIONARY), Err(PassphraseError::InvalidDictionary));
}

#[test]
fn random_word_is_roughly_uniform() {
    let draws = 40000;
    let mut counts = [0usize; 4];
    for _ in 0..draws {
        let w = random_word(HELLO_DICTIONARY).unwrap();
        let i = HELLO_DICTIONARY.iter().position(|x| *x == w).unwrap();
        counts[i] += 1;
    }
    for count in counts {
        assert!(count > 9000 && count < 11000, "count {count} far from 10000");
    }
}
