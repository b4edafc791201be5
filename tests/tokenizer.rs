use resonant_search::tokenizer::PrimeTokenizer;

#[test]
fn words_get_successive_primes() {
    let mut t = PrimeTokenizer::new();
    let ids = t.tokenize("Hello world, hello!").unwrap();
    assert_eq!(ids, vec![3, 5, 3]);
    assert_eq!(t.current_prime(), 5);
    let more = t.tokenize("world peace now").unwrap();
    assert_eq!(more, vec![5, 7, 11]);
    assert_eq!(t.current_prime(), 11);
}

#[test]
fn case_is_folded() {
    let mut t = PrimeTokenizer::new();
    let ids = t.tokenize("RUST rust Rust").unwrap();
    assert_eq!(ids, vec![3, 3, 3]);
}

#[test]
fn many_words_skip_composites() {
    let mut t = PrimeTokenizer::new();
    let ids = t.tokenize("a b c d e f g h").unwrap();
    assert_eq!(ids, vec![3, 5, 7, 11, 13, 17, 19, 23]);
}

#[test]
fn text_without_words_gives_no_ids() {
    let mut t = PrimeTokenizer::new();
    assert_eq!(t.tokenize("  ,.; !").unwrap(), Vec::<u64>::new());
    assert_eq!(t.current_prime(), 2);
}

#[test]
fn vocabulary_lookups_go_both_ways() {
    let mut t = PrimeTokenizer::new();
    t.tokenize("alpha beta").unwrap();
    assert_eq!(t.get_prime("beta"), Some(&5));
    assert_eq!(t.get_token(3).map(|s| s.as_str()), Some("alpha"));
    assert_eq!(t.get_token(7), None);
    assert_eq!(t.get_prime("gamma"), None);
}

#[test]
fn tokenize_without_update_passes_ids_through() {
    let t = PrimeTokenizer::new();
    assert_eq!(t.tokenize_without_update(&[11, 3, 11]), vec![11, 3, 11]);
    assert_eq!(t.current_prime(), 2);
}

#[test]
fn hello_world_ids() {
    let mut t = PrimeTokenizer::new();
    assert_eq!(t.tokenize("Hello world, hello!").unwrap(), vec![3, 5, 3]);
    assert_eq!(t.get_prime("hello"), Some(&3));
    assert_eq!(t.get_token(5), Some(&"world".to_string()));
}
