use vstd::prelude::*;
use vstd::std_specs::iter::IteratorSpec;

verus! {

broadcast use {vstd::string::group_string_axioms, vstd::string::next_postcondition};

/// How characters are rewritten when read out of a string.
pub enum Fold {
    /// Characters stay as they are.
    Keep,
    /// ASCII upper-case letters become lower-case.
    Lower,
    /// As `Lower`, and each line feed becomes a space.
    LowerOneLine,
}

/// What ends a run of characters.
pub enum Separators {
    /// Sentence delimiters: `.`, `(`, `)`, `;`, `:`.
    Sentence,
    /// ASCII whitespace.
    Word,
}

/// ASCII upper-case letters become lower-case; every other character stays.
pub open spec fn ascii_lower(c: char) -> char {
    if 'A' <= c && c <= 'Z' {
        ((c as u32) + 32) as char
    } else {
        c
    }
}

pub open spec fn fold_char(f: Fold, c: char) -> char {
    match f {
        Fold::Keep => c,
        Fold::Lower => ascii_lower(c),
        Fold::LowerOneLine => if c == '\n' {
            ' '
        } else {
            ascii_lower(c)
        },
    }
}

pub open spec fn is_delim(c: char) -> bool {
    c == '.' || c == '(' || c == ')' || c == ';' || c == ':'
}

/// Space, tab, line feed, form feed and carriage return.
pub open spec fn is_ascii_white(c: char) -> bool {
    c == ' ' || c == '\t' || c == '\n' || c == '\x0C' || c == '\r'
}

/// The characters that have the Unicode `White_Space` property.
pub open spec fn is_white(c: char) -> bool {
    let u = c as u32;
    (9 <= u <= 13) || u == 32 || u == 0x85 || u == 0xA0 || u == 0x1680 || (0x2000 <= u <= 0x200A)
        || u == 0x2028 || u == 0x2029 || u == 0x202F || u == 0x205F || u == 0x3000
}

pub open spec fn is_sep(k: Separators, c: char) -> bool {
    match k {
        Separators::Sentence => is_delim(c),
        Separators::Word => is_ascii_white(c),
    }
}

/// Scanning `s` left to right: the non-empty runs already closed by a separator,
/// and the run still open.
pub open spec fn runs_state(s: Seq<char>, k: Separators) -> (Seq<Seq<char>>, Seq<char>)
    decreases s.len(),
{
    if s.len() == 0 {
        (seq![], seq![])
    } else {
        let prev = runs_state(s.drop_last(), k);
        if is_sep(k, s.last()) {
            (if prev.1.len() > 0 { prev.0.push(prev.1) } else { prev.0 }, seq![])
        } else {
            (prev.0, prev.1.push(s.last()))
        }
    }
}

/// The maximal non-empty runs of characters of `s` that are not separators, in order.
pub open spec fn runs(s: Seq<char>, k: Separators) -> Seq<Seq<char>> {
    let st = runs_state(s, k);
    if st.1.len() > 0 {
        st.0.push(st.1)
    } else {
        st.0
    }
}

pub open spec fn trim_start(s: Seq<char>) -> Seq<char>
    decreases s.len(),
{
    if s.len() > 0 && is_white(s[0]) {
        trim_start(s.drop_first())
    } else {
        s
    }
}

pub open spec fn trim_end(s: Seq<char>) -> Seq<char>
    decreases s.len(),
{
    if s.len() > 0 && is_white(s.last()) {
        trim_end(s.drop_last())
    } else {
        s
    }
}

/// `s` without leading and trailing white space.
pub open spec fn trim(s: Seq<char>) -> Seq<char> {
    trim_end(trim_start(s))
}

/// The sentences of a text: lower-cased, line feeds read as spaces, cut at the
/// sentence delimiters with empty pieces dropped; each piece trimmed and cut into
/// words at ASCII white space.
pub open spec fn sentences_spec(text: Seq<char>) -> Seq<Seq<Seq<char>>> {
    runs(text.map_values(|c: char| fold_char(Fold::LowerOneLine, c)), Separators::Sentence).map_values(
        |seg: Seq<char>| runs(trim(seg), Separators::Word),
    )
}

/// The words of a single sentence: lower-cased and cut at ASCII white space.
pub open spec fn words_spec(sentence: Seq<char>) -> Seq<Seq<char>> {
    runs(sentence.map_values(|c: char| ascii_lower(c)), Separators::Word)
}

pub open spec fn views(ws: Seq<String>) -> Seq<Seq<char>> {
    ws.map_values(|w: String| w@)
}

/// Relies on `String::from_iter` over `char`s: the string holds the characters in
/// their order.
#[verifier::external_body]
fn string_from_chars(cs: Vec<char>) -> (r: String)
    ensures
        r@ == cs@,
{
    String::from_iter(cs)
}

fn fold(f: &Fold, c: char) -> (r: char)
    ensures
        r == fold_char(*f, c),
{
    match f {
        Fold::Keep => c,
        Fold::LowerOneLine if c == '\n' => ' ',
        _ => if 'A' <= c && c <= 'Z' {
            ((c as u8) + 32) as char
        } else {
            c
        },
    }
}

fn white(c: char) -> (r: bool)
    ensures
        r == is_white(c),
{
    let u = c as u32;
    (9 <= u && u <= 13) || u == 32 || u == 0x85 || u == 0xA0 || u == 0x1680 || (0x2000 <= u && u
        <= 0x200A) || u == 0x2028 || u == 0x2029 || u == 0x202F || u == 0x205F || u == 0x3000
}

fn separator(k: &Separators, c: char) -> (r: bool)
    ensures
        r == is_sep(*k, c),
{
    match k {
        Separators::Sentence => c == '.' || c == '(' || c == ')' || c == ';' || c == ':',
        Separators::Word => c == ' ' || c == '\t' || c == '\n' || c == '\x0C' || c == '\r',
    }
}

/// The characters of `s`, each rewritten by `f`.
pub fn folded_chars(s: &str, f: Fold) -> (r: Vec<char>)
    ensures
        r@ == s@.map_values(|c: char| fold_char(f, c)),
{
    let mut r: Vec<char> = Vec::new();
    let mut it = s.chars();
    loop
        invariant
            it.remaining() == s@.skip(r@.len() as int),
            r@.len() <= s@.len(),
            r@ == s@.take(r@.len() as int).map_values(|c: char| fold_char(f, c)),
            it.decrease() is Some,
        ensures
            r@ == s@.map_values(|c: char| fold_char(f, c)),
        decreases it.decrease()->0,
    {
        match it.next() {
            Some(c) => {
                let ghost n = r@.len() as int;
                r.push(fold(&f, c));
                proof {
                    assert(s@.take(n + 1) == s@.take(n).push(s@[n]));
                    assert(it.remaining() == s@.skip(n + 1));
                }
            },
            None => {
                assert(s@.take(r@.len() as int) == s@);
                break;
            },
        }
    }
    r
}

/// The maximal non-empty runs of non-separator characters of `cs`, as strings.
pub fn char_runs(cs: &Vec<char>, k: Separators) -> (r: Vec<String>)
    ensures
        views(r@) == runs(cs@, k),
{
    let mut done: Vec<String> = Vec::new();
    let mut cur: Vec<char> = Vec::new();
    let n = cs.len();
    for i in 0..n
        invariant
            n == cs@.len(),
            (views(done@), cur@) == runs_state(cs@.take(i as int), k),
    {
        proof {
            assert(cs@.take(i + 1).drop_last() == cs@.take(i as int));
        }
        let c = cs[i];
        if separator(&k, c) {
            if cur.len() > 0 {
                let w = string_from_chars(cur);
                done.push(w);
                assert(views(done@) == runs_state(cs@.take(i as int), k).0.push(w@));
                cur = Vec::new();
            }
        } else {
            cur.push(c);
        }
    }
    assert(cs@.take(n as int) == cs@);
    if cur.len() > 0 {
        let w = string_from_chars(cur);
        done.push(w);
        assert(views(done@) == runs_state(cs@, k).0.push(w@));
    }
    done
}

/// `cs` without leading and trailing white space.
pub fn trimmed(cs: &Vec<char>) -> (r: Vec<char>)
    ensures
        r@ == trim(cs@),
{
    let n = cs.len();
    let mut i: usize = 0;
    assert(cs@.subrange(0, n as int) == cs@);
    while i < n && white(cs[i])
        invariant
            i <= n == cs@.len(),
            trim_start(cs@) == trim_start(cs@.subrange(i as int, n as int)),
        decreases n - i,
    {
        assert(cs@.subrange(i as int, n as int).drop_first() == cs@.subrange(i + 1, n as int));
        i = i + 1;
    }
    assert(trim_start(cs@) == cs@.subrange(i as int, n as int));
    let mut j: usize = n;
    while j > i && white(cs[j - 1])
        invariant
            i <= j <= n == cs@.len(),
            trim(cs@) == trim_end(cs@.subrange(i as int, j as int)),
        decreases j,
    {
        assert(cs@.subrange(i as int, j as int).drop_last() == cs@.subrange(i as int, j - 1));
        j = j - 1;
    }
    let mut r: Vec<char> = Vec::new();
    let mut p: usize = i;
    while p < j
        invariant
            i <= p <= j <= n == cs@.len(),
            r@ == cs@.subrange(i as int, p as int),
        decreases j - p,
    {
        r.push(cs[p]);
        assert(r@ == cs@.subrange(i as int, p + 1));
        p = p + 1;
    }
    r
}

/// The sentences of `text`, each as its list of words (see `sentences_spec`).
pub fn sentences(text: &str) -> (r: Vec<Vec<String>>)
    ensures
        r@.len() == sentences_spec(text@).len(),
        forall|i: int| 0 <= i < r@.len() ==> views(#[trigger] r@[i]@) == sentences_spec(text@)[i],
{
    let cs = folded_chars(text, Fold::LowerOneLine);
    let segs = char_runs(&cs, Separators::Sentence);
    let ghost spec_segs = runs(text@.map_values(|c: char| fold_char(Fold::LowerOneLine, c)), Separators::Sentence);
    assert(cs@ == text@.map_values(|c: char| fold_char(Fold::LowerOneLine, c)));
    assert(views(segs@) == spec_segs);
    let mut r: Vec<Vec<String>> = Vec::new();
    for i in 0..segs.len()
        invariant
            views(segs@) == spec_segs,
            spec_segs.map_values(|seg: Seq<char>| runs(trim(seg), Separators::Word)) == sentences_spec(text@),
            r@.len() == i,
            forall|k: int| 0 <= k < i ==> views(#[trigger] r@[k]@) == sentences_spec(text@)[k],
    {
        assert(segs@[i as int]@ == spec_segs[i as int]);
        let seg = folded_chars(segs[i].as_str(), Fold::Keep);
        assert(seg@ == segs@[i as int]@);
        let t = trimmed(&seg);
        let words = char_runs(&t, Separators::Word);
        r.push(words);
    }
    r
}

/// The words of one sentence: lower-cased and cut at ASCII white space.
pub fn sentence_words(sentence: &str) -> (r: Vec<String>)
    ensures
        views(r@) == words_spec(sentence@),
{
    let cs = folded_chars(sentence, Fold::Lower);
    assert(cs@ == sentence@.map_values(|c: char| ascii_lower(c)));
    char_runs(&cs, Separators::Word)
}

} // verus!
