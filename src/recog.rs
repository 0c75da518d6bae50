use vstd::prelude::*;
use crate::normalize::views;
use crate::window::{left_nbhood, left_spec, right_nbhood, right_spec};

verus! {

broadcast use vstd::string::group_string_axioms;

/// A token is masked when it holds a `_` or a `%`.
pub open spec fn is_masked_spec(w: Seq<char>) -> bool {
    exists|k: int| 0 <= k < w.len() && (w[k] == '_' || w[k] == '%')
}

/// The positions among `0 .. n` whose token is masked, ascending.
pub open spec fn masked_upto(words: Seq<String>, n: int) -> Seq<int>
    decreases n,
{
    if n <= 0 {
        seq![]
    } else if is_masked_spec(words[n - 1]@) {
        masked_upto(words, n - 1).push(n - 1)
    } else {
        masked_upto(words, n - 1)
    }
}

/// The positions of the masked tokens of `words`, ascending.
pub open spec fn masked_positions(words: Seq<String>) -> Seq<int> {
    masked_upto(words, words.len() as int)
}

/// The words of a window, in its order.
pub open spec fn window_words(w: Seq<(String, i32)>) -> Seq<String> {
    w.map_values(|e: (String, i32)| e.0)
}

/// The distances of a window, in its order.
pub open spec fn window_distances(w: Seq<(String, i32)>) -> Seq<i32> {
    w.map_values(|e: (String, i32)| e.1)
}

/// The arguments of one call of the store's candidate selection, for the masked
/// token at `position`.
pub struct CandidateQuery {
    pub position: usize,
    pub left_words: Vec<String>,
    pub left_distances: Vec<i32>,
    pub placeholder: String,
    pub right_words: Vec<String>,
    pub right_distances: Vec<i32>,
}

/// `q` is the query for position `i` of `words`, built from the original tokens.
pub open spec fn is_query_for(q: CandidateQuery, words: Seq<String>, i: int) -> bool {
    &&& q.position == i
    &&& q.left_words@ == window_words(left_spec(words, i))
    &&& q.left_distances@ == window_distances(left_spec(words, i))
    &&& q.placeholder == words[i]
    &&& q.right_words@ == window_words(right_spec(words, i))
    &&& q.right_distances@ == window_distances(right_spec(words, i))
}

/// The tokens at positions `0 .. n` after substitution: the `k`-th masked token
/// is replaced by `answers[k]`, every other token stays.
pub open spec fn recognized_upto(words: Seq<String>, answers: Seq<String>, n: int) -> Seq<Seq<char>>
    decreases n,
{
    if n <= 0 {
        seq![]
    } else {
        recognized_upto(words, answers, n - 1).push(
            if is_masked_spec(words[n - 1]@) {
                answers[masked_upto(words, n - 1).len() as int]@
            } else {
                words[n - 1]@
            },
        )
    }
}

/// All tokens of `words` after substitution.
pub open spec fn recognized(words: Seq<String>, answers: Seq<String>) -> Seq<Seq<char>> {
    recognized_upto(words, answers, words.len() as int)
}

/// The pieces joined by single spaces.
pub open spec fn join(ws: Seq<Seq<char>>) -> Seq<char>
    decreases ws.len(),
{
    if ws.len() == 0 {
        seq![]
    } else if ws.len() == 1 {
        ws[0]
    } else {
        join(ws.drop_last()) + seq![' '] + ws.last()
    }
}

/// Whether `w` holds a wildcard character, `_` or `%`.
pub fn is_masked(w: &String) -> (r: bool)
    ensures
        r == is_masked_spec(w@),
{
    let s = w.as_str();
    let n = s.unicode_len();
    let mut k: usize = 0;
    while k < n
        invariant
            n == w@.len(),
            k <= n,
            s@ == w@,
            forall|j: int| 0 <= j < k ==> !(w@[j] == '_' || w@[j] == '%'),
        decreases n - k,
    {
        let c = s.get_char(k);
        if c == '_' || c == '%' {
            return true;
        }
        k = k + 1;
    }
    false
}

/// A window as two parallel lists: its words and its distances.
pub fn unzip_window(w: &Vec<(String, i32)>) -> (r: (Vec<String>, Vec<i32>))
    ensures
        r.0@ == window_words(w@),
        r.1@ == window_distances(w@),
{
    let mut ws: Vec<String> = Vec::new();
    let mut ds: Vec<i32> = Vec::new();
    for k in 0..w.len()
        invariant
            ws@ == window_words(w@.take(k as int)),
            ds@ == window_distances(w@.take(k as int)),
    {
        ws.push(w[k].0.clone());
        ds.push(w[k].1);
        assert(w@.take(k + 1) == w@.take(k as int).push(w@[k as int]));
        assert(ws@ =~= window_words(w@.take(k + 1)));
        assert(ds@ =~= window_distances(w@.take(k + 1)));
    }
    assert(w@.take(w@.len() as int) == w@);
    (ws, ds)
}

/// One candidate query per masked token of `words`, in ascending position; each
/// is built from the original tokens, whatever replaces the other masked ones.
pub fn recognition_queries(words: &Vec<String>) -> (r: Vec<CandidateQuery>)
    ensures
        r@.len() == masked_positions(words@).len(),
        forall|k: int|
            0 <= k < r@.len() ==> is_query_for(#[trigger] r@[k], words@, masked_positions(words@)[k]),
{
    let mut r: Vec<CandidateQuery> = Vec::new();
    let n = words.len();
    for i in 0..n
        invariant
            n == words@.len(),
            r@.len() == masked_upto(words@, i as int).len(),
            forall|k: int|
                0 <= k < r@.len() ==> is_query_for(#[trigger] r@[k], words@, masked_upto(words@, i as int)[k]),
    {
        if is_masked(&words[i]) {
            let (lw, ld) = unzip_window(&left_nbhood(words, i));
            let (rw, rd) = unzip_window(&right_nbhood(words, i));
            r.push(
                CandidateQuery {
                    position: i,
                    left_words: lw,
                    left_distances: ld,
                    placeholder: words[i].clone(),
                    right_words: rw,
                    right_distances: rd,
                },
            );
        }
    }
    r
}

/// The tokens of `words` with the `k`-th masked one replaced by `answers[k]`,
/// joined by single spaces.
pub fn substitute(words: &Vec<String>, answers: &Vec<String>) -> (r: String)
    requires
        answers@.len() == masked_positions(words@).len(),
    ensures
        r@ == join(recognized(words@, answers@)),
{
    let mut r = String::new();
    let mut used: usize = 0;
    let n = words.len();
    let na = answers.len();
    proof {
        reveal_strlit(" ");
    }
    for i in 0..n
        invariant
            n == words@.len(),
            answers@.len() == masked_upto(words@, n as int).len(),
            na == answers@.len(),
            used == masked_upto(words@, i as int).len(),
            r@ == join(recognized_upto(words@, answers@, i as int)),
            " "@ == seq![' '],
    {
        proof {
            lemma_masked_upto_grows(words@, i + 1, n as int);
        }
        let ghost before = recognized_upto(words@, answers@, i as int);
        if i > 0 {
            r.append(" ");
        }
        if is_masked(&words[i]) {
            r.append(answers[used].as_str());
            assert(masked_upto(words@, i + 1).len() == used + 1);
            used = used + 1;
        } else {
            r.append(words[i].as_str());
        }
        proof {
            lemma_recognized_len(words@, answers@, i as int);
            let now = recognized_upto(words@, answers@, i + 1);
            assert(now.drop_last() == before);
        }
    }
    r
}

/// A sentence with no masked token needs no candidate query, and recognizing it
/// gives back its own tokens joined by single spaces.
pub proof fn lemma_pass_through(words: Seq<String>)
    requires
        forall|i: int| 0 <= i < words.len() ==> !is_masked_spec(#[trigger] words[i]@),
    ensures
        masked_positions(words) == Seq::<int>::empty(),
        join(recognized(words, seq![])) == join(views(words)),
{
    lemma_pass_through_upto(words, words.len() as int);
    assert(views(words).take(words.len() as int) == views(words));
}

proof fn lemma_pass_through_upto(words: Seq<String>, n: int)
    requires
        0 <= n <= words.len(),
        forall|i: int| 0 <= i < words.len() ==> !is_masked_spec(#[trigger] words[i]@),
    ensures
        masked_upto(words, n) == Seq::<int>::empty(),
        recognized_upto(words, seq![], n) == views(words).take(n),
    decreases n,
{
    if n > 0 {
        lemma_pass_through_upto(words, n - 1);
        assert(views(words).take(n) == views(words).take(n - 1).push(words[n - 1]@));
    }
}

proof fn lemma_masked_upto_grows(words: Seq<String>, m: int, n: int)
    requires
        m <= n,
    ensures
        masked_upto(words, m).len() <= masked_upto(words, n).len(),
    decreases n - m,
{
    if m < n {
        lemma_masked_upto_grows(words, m, n - 1);
    }
}

proof fn lemma_recognized_len(words: Seq<String>, answers: Seq<String>, n: int)
    requires
        n >= 0,
    ensures
        recognized_upto(words, answers, n).len() == n,
    decreases n,
{
    if n > 0 {
        lemma_recognized_len(words, answers, n - 1);
    }
}

} // verus!
