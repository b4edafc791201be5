use resonant_search::snippet::{create_snippet, preview};

#[test]
fn short_text_is_collapsed_only() {
    assert_eq!(create_snippet("  one \n\t two   three ", 200), "one two three");
}

#[test]
fn long_text_is_cut_after_last_space() {
    let text = "alpha beta gamma delta epsilon";
    // budget 20: "alpha beta gamma del" -> last space at 17, past half
    assert_eq!(create_snippet(text, 20), "alpha beta gamma ...");
}

#[test]
fn long_word_is_cut_at_the_budget() {
    let text = "ab abcdefghijklmnopqrstuvwxyz";
    // the only space (after "ab") lies before half the budget
    assert_eq!(create_snippet(text, 10), "ab abcdefg...");
}

#[test]
fn text_of_exactly_the_budget_is_kept() {
    assert_eq!(create_snippet("abcde", 5), "abcde");
    assert_eq!(create_snippet("", 5), "");
}

#[test]
fn preview_keeps_two_hundred_characters() {
    let short = "x".repeat(200);
    assert_eq!(preview(&short), short);
    let long = "é".repeat(250);
    let p = preview(&long);
    assert_eq!(p.chars().count(), 203);
    assert!(p.ends_with("..."));
    assert!(p.starts_with(&"é".repeat(200)));
}
