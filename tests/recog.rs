use cooccur::normalize::sentence_words;
use cooccur::recog::{is_masked, recognition_queries, substitute, unzip_window};

fn s(w: &str) -> String {
    w.to_string()
}

#[test]
fn unmasked_sentence_passes_through() {
    let words = sentence_words("the cat sat");
    let queries = recognition_queries(&words);
    assert!(queries.is_empty());
    assert_eq!(substitute(&words, &vec![]), "the cat sat");
}

#[test]
fn one_masked_token_makes_one_query() {
    let words = sentence_words("the % sat");
    let queries = recognition_queries(&words);
    assert_eq!(queries.len(), 1);
    let q = &queries[0];
    assert_eq!(q.position, 1);
    assert_eq!(q.left_words, vec![s("the")]);
    assert_eq!(q.left_distances, vec![1]);
    assert_eq!(q.placeholder, "%");
    assert_eq!(q.right_words, vec![s("sat")]);
    assert_eq!(q.right_distances, vec![-1]);
    assert_eq!(substitute(&words, &vec![s("cat")]), "the cat sat");
}

#[test]
fn queries_use_the_original_tokens() {
    let words = sentence_words("Based on NVIDIA % is % to simplify the");
    let queries = recognition_queries(&words);
    assert_eq!(queries.len(), 2);
    assert_eq!(queries[0].position, 3);
    assert_eq!(queries[0].left_words, vec![s("based"), s("on"), s("nvidia")]);
    assert_eq!(queries[0].left_distances, vec![3, 2, 1]);
    assert_eq!(queries[0].right_words, vec![s("is"), s("%"), s("to")]);
    assert_eq!(queries[0].right_distances, vec![-1, -2, -3]);
    assert_eq!(queries[1].position, 5);
    assert_eq!(queries[1].left_words, vec![s("nvidia"), s("%"), s("is")]);
    assert_eq!(queries[1].right_words, vec![s("to"), s("simplify"), s("the")]);
    assert_eq!(
        substitute(&words, &vec![s("cuda"), s("designed")]),
        "based on nvidia cuda is designed to simplify the"
    );
}

#[test]
fn masked_at_start_has_no_left_context() {
    let words = sentence_words("_ing tree");
    let queries = recognition_queries(&words);
    assert_eq!(queries.len(), 1);
    assert!(queries[0].left_words.is_empty() && queries[0].left_distances.is_empty());
    assert_eq!(queries[0].placeholder, "_ing");
    assert_eq!(queries[0].right_words, vec![s("tree")]);
    assert_eq!(substitute(&words, &vec![s("king")]), "king tree");
}

#[test]
fn wildcard_detection() {
    assert!(is_masked(&s("%")));
    assert!(is_masked(&s("ab_c")));
    assert!(is_masked(&s("x%")));
    assert!(!is_masked(&s("plain")));
    assert!(!is_masked(&s("")));
}

#[test]
fn empty_sentence_recognizes_to_empty() {
    let words = sentence_words("   ");
    assert!(recognition_queries(&words).is_empty());
    assert_eq!(substitute(&words, &vec![]), "");
}

#[test]
fn window_unzips_in_order() {
    let w = vec![(s("a"), 3), (s("b"), 1)];
    let (ws, ds) = unzip_window(&w);
    assert_eq!(ws, vec![s("a"), s("b")]);
    assert_eq!(ds, vec![3, 1]);
}
