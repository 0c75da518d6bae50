use cooccur::normalize::{char_runs, folded_chars, sentence_words, sentences, trimmed, Fold, Separators};

fn strs(v: &[&str]) -> Vec<String> {
    v.iter().map(|w| w.to_string()).collect()
}

#[test]
fn text_is_cut_into_lower_case_sentences() {
    let r = sentences("The Cat sat.\nOn the (warm) MAT; then: slept");
    assert_eq!(
        r,
        vec![
            strs(&["the", "cat", "sat"]),
            strs(&["on", "the"]),
            strs(&["warm"]),
            strs(&["mat"]),
            strs(&["then"]),
            strs(&["slept"]),
        ]
    );
}

#[test]
fn empty_pieces_are_dropped() {
    assert!(sentences("").is_empty());
    assert!(sentences("..;;()").is_empty());
    assert_eq!(sentences("a..b"), vec![strs(&["a"]), strs(&["b"])]);
}

#[test]
fn blank_piece_gives_empty_sentence() {
    assert_eq!(sentences("a. .b"), vec![strs(&["a"]), strs(&[]), strs(&["b"])]);
}

#[test]
fn lines_join_into_one_sentence() {
    assert_eq!(sentences("one\ntwo\r\nthree"), vec![strs(&["one", "two", "three"])]);
}

#[test]
fn unicode_white_space_is_trimmed_at_the_ends() {
    assert_eq!(sentences("\u{a0}x y\u{3000}"), vec![strs(&["x", "y"])]);
    assert_eq!(sentences("x\u{a0}y"), vec![strs(&["x\u{a0}y"])]);
}

#[test]
fn only_ascii_letters_are_lowered() {
    assert_eq!(sentence_words("ÉCOLE Big"), strs(&["École", "big"]));
    assert_eq!(folded_chars("AbZ\n", Fold::Lower), vec!['a', 'b', 'z', '\n']);
    assert_eq!(folded_chars("AbZ\n", Fold::LowerOneLine), vec!['a', 'b', 'z', ' ']);
    assert_eq!(folded_chars("AbZ", Fold::Keep), vec!['A', 'b', 'Z']);
}

#[test]
fn words_of_a_sentence() {
    assert_eq!(sentence_words("  Based on NVIDIA % is\t%  "), strs(&["based", "on", "nvidia", "%", "is", "%"]));
    assert!(sentence_words("   ").is_empty());
}

#[test]
fn runs_and_trim() {
    let cs: Vec<char> = "a.b;;c".chars().collect();
    assert_eq!(char_runs(&cs, Separators::Sentence), strs(&["a", "b", "c"]));
    let cs: Vec<char> = " x  y ".chars().collect();
    assert_eq!(char_runs(&cs, Separators::Word), strs(&["x", "y"]));
    assert_eq!(trimmed(&cs), vec!['x', ' ', ' ', 'y']);
    let blank: Vec<char> = " \t ".chars().collect();
    assert!(trimmed(&blank).is_empty());
}
