use vstd::prelude::*;
use vstd::multiset::Multiset;
use crate::window::{left_nbhood, left_spec, right_nbhood, right_spec};

verus! {

/// One call of the store's increment operation: `first` and `second` are its two
/// words, in argument order, and `distance` the signed distance between them.
#[derive(Debug)]
pub struct ContextPair {
    pub first: String,
    pub second: String,
    pub distance: i32,
}

/// The call for a left neighbour `e` of `anchor`: neighbour first.
pub open spec fn left_pair(anchor: String, e: (String, i32)) -> ContextPair {
    ContextPair { first: e.0, second: anchor, distance: e.1 }
}

/// The call for a right neighbour `e` of `anchor`: anchor first.
pub open spec fn right_pair(anchor: String, e: (String, i32)) -> ContextPair {
    ContextPair { first: anchor, second: e.0, distance: e.1 }
}

/// The calls made for the word at `i`: one per left neighbour (neighbour first,
/// positive distance), then one per right neighbour (word first, negative
/// distance).
pub open spec fn pairs_at(words: Seq<String>, i: int) -> Seq<ContextPair> {
    left_spec(words, i).map_values(|e: (String, i32)| left_pair(words[i], e)) + right_spec(
        words,
        i,
    ).map_values(|e: (String, i32)| right_pair(words[i], e))
}

/// The calls made for the words at positions `0 .. n`, position by position.
pub open spec fn pairs_upto(words: Seq<String>, n: int) -> Seq<ContextPair>
    decreases n,
{
    if n <= 0 {
        seq![]
    } else {
        pairs_upto(words, n - 1) + pairs_at(words, n - 1)
    }
}

/// Every call that ingesting the sentence `words` makes, in the order made.
pub open spec fn sentence_pairs_spec(words: Seq<String>) -> Seq<ContextPair> {
    pairs_upto(words, words.len() as int)
}

/// The sizes of both windows, summed over the positions `0 .. n`.
pub open spec fn window_total(words: Seq<String>, n: int) -> int
    decreases n,
{
    if n <= 0 {
        0
    } else {
        window_total(words, n - 1) + left_spec(words, n - 1).len() + right_spec(words, n - 1).len()
    }
}

/// The increment calls that ingesting one sentence makes, in order: positions
/// ascending, and at each position the left neighbours before the right ones.
pub fn sentence_pairs(words: &Vec<String>) -> (r: Vec<ContextPair>)
    ensures
        r@ == sentence_pairs_spec(words@),
{
    let mut r: Vec<ContextPair> = Vec::new();
    let n = words.len();
    for i in 0..n
        invariant
            n == words@.len(),
            r@ == pairs_upto(words@, i as int),
    {
        let ghost base = r@;
        let left = left_nbhood(words, i);
        for k in 0..left.len()
            invariant
                r@ == base + left@.take(k as int).map_values(|e: (String, i32)| left_pair(words@[i as int], e)),
                left@ == left_spec(words@, i as int),
                i < n == words@.len(),
        {
            let e = &left[k];
            r.push(ContextPair { first: e.0.clone(), second: words[i].clone(), distance: e.1 });
            assert(left@.take(k + 1) == left@.take(k as int).push(left@[k as int]));
            assert(r@ =~= base + left@.take(k + 1).map_values(|e: (String, i32)| left_pair(words@[i as int], e)));
        }
        assert(left@.take(left@.len() as int) == left@);
        let ghost mid = r@;
        let right = right_nbhood(words, i);
        for k in 0..right.len()
            invariant
                r@ == mid + right@.take(k as int).map_values(|e: (String, i32)| right_pair(words@[i as int], e)),
                right@ == right_spec(words@, i as int),
                i < n == words@.len(),
        {
            let e = &right[k];
            r.push(ContextPair { first: words[i].clone(), second: e.0.clone(), distance: e.1 });
            assert(right@.take(k + 1) == right@.take(k as int).push(right@[k as int]));
            assert(r@ =~= mid + right@.take(k + 1).map_values(|e: (String, i32)| right_pair(words@[i as int], e)));
        }
        assert(right@.take(right@.len() as int) == right@);
        assert(r@ == pairs_upto(words@, i + 1));
    }
    r
}

/// The number of increment calls for a sentence is the sum, over its positions,
/// of the sizes of the left and the right window.
pub proof fn lemma_call_count(words: Seq<String>)
    ensures
        sentence_pairs_spec(words).len() == window_total(words, words.len() as int),
{
    lemma_call_count_upto(words, words.len() as int);
}

proof fn lemma_call_count_upto(words: Seq<String>, n: int)
    ensures
        pairs_upto(words, n).len() == window_total(words, n),
    decreases n,
{
    if n > 0 {
        lemma_call_count_upto(words, n - 1);
    }
}

/// The first sentence task that failed, if any did: a batch reports that
/// failure once every task has settled.
pub fn first_failure(failed: &Vec<bool>) -> (r: Option<usize>)
    ensures
        r is None <==> forall|j: int| 0 <= j < failed@.len() ==> !failed@[j],
        r matches Some(k) ==> k < failed@.len() && failed@[k as int] && forall|j: int|
            0 <= j < k ==> !failed@[j],
{
    let n = failed.len();
    for k in 0..n
        invariant
            n == failed@.len(),
            forall|j: int| 0 <= j < k ==> !failed@[j],
    {
        if failed[k] {
            return Some(k);
        }
    }
    None
}

/// How often `j` occurs in `s`.
pub open spec fn count_of(s: Seq<int>, j: int) -> nat
    decreases s.len(),
{
    if s.len() == 0 {
        0
    } else {
        count_of(s.drop_last(), j) + if s.last() == j {
            1nat
        } else {
            0nat
        }
    }
}

/// The calls that reach the store when the sentence tasks take turns as
/// `schedule` says: at each step task `schedule[s]` makes its next pending call,
/// if it has one left.
pub open spec fn issued(tasks: Seq<Seq<ContextPair>>, schedule: Seq<int>) -> Seq<ContextPair>
    decreases schedule.len(),
{
    if schedule.len() == 0 {
        seq![]
    } else {
        let prev = schedule.drop_last();
        let j = schedule.last();
        let k = count_of(prev, j);
        if 0 <= j < tasks.len() && k < tasks[j].len() {
            issued(tasks, prev).push(tasks[j][k as int])
        } else {
            issued(tasks, prev)
        }
    }
}

/// The calls of the first `m` tasks, each counted as often as it occurs.
pub open spec fn union_of(tasks: Seq<Seq<ContextPair>>, m: int) -> Multiset<ContextPair>
    decreases m,
{
    if m <= 0 {
        Multiset::empty()
    } else {
        union_of(tasks, m - 1).add(tasks[m - 1].to_multiset())
    }
}

/// One task per sentence: the calls that ingesting it makes.
pub open spec fn sentence_tasks(sentences: Seq<Seq<String>>) -> Seq<Seq<ContextPair>> {
    sentences.map_values(|s: Seq<String>| sentence_pairs_spec(s))
}

/// What the first `m` tasks have issued after `schedule`.
spec fn done_of(tasks: Seq<Seq<ContextPair>>, schedule: Seq<int>, m: int) -> Multiset<ContextPair>
    decreases m,
{
    if m <= 0 {
        Multiset::empty()
    } else {
        let t = tasks[m - 1];
        let c = count_of(schedule, m - 1);
        done_of(tasks, schedule, m - 1).add(t.take(if c < t.len() { c as int } else { t.len() as int }).to_multiset())
    }
}

proof fn lemma_done_step(tasks: Seq<Seq<ContextPair>>, prev: Seq<int>, j: int, m: int)
    requires
        m <= tasks.len(),
    ensures
        ({
            let k = count_of(prev, j);
            done_of(tasks, prev.push(j), m) == if 0 <= j < m && k < tasks[j].len() {
                done_of(tasks, prev, m).insert(tasks[j][k as int])
            } else {
                done_of(tasks, prev, m)
            }
        }),
    decreases m,
{
    broadcast use {vstd::multiset::group_multiset_axioms, vstd::seq_lib::group_to_multiset_ensures, vstd::multiset::lemma_multiset_empty_len};

    let sched = prev.push(j);
    assert(sched.drop_last() == prev);
    if m > 0 {
        lemma_done_step(tasks, prev, j, m - 1);
        let t = tasks[m - 1];
        let k = count_of(prev, m - 1);
        if m - 1 == j && k < t.len() {
            assert(t.take(k as int + 1) == t.take(k as int).push(t[k as int]));
            assert(done_of(tasks, sched, m) =~= done_of(tasks, prev, m).insert(t[k as int]));
        } else {
            assert(done_of(tasks, sched, m) =~= if 0 <= j < m && count_of(prev, j) < tasks[j].len() {
                done_of(tasks, prev, m).insert(tasks[j][count_of(prev, j) as int])
            } else {
                done_of(tasks, prev, m)
            });
        }
    }
}

proof fn lemma_issued_done(tasks: Seq<Seq<ContextPair>>, schedule: Seq<int>)
    ensures
        issued(tasks, schedule).to_multiset() == done_of(tasks, schedule, tasks.len() as int),
    decreases schedule.len(),
{
    broadcast use {vstd::multiset::group_multiset_axioms, vstd::seq_lib::group_to_multiset_ensures, vstd::multiset::lemma_multiset_empty_len};

    if schedule.len() == 0 {
        lemma_done_empty(tasks, schedule, tasks.len() as int);
        assert(issued(tasks, schedule).to_multiset() =~= Multiset::empty());
    } else {
        let prev = schedule.drop_last();
        lemma_issued_done(tasks, prev);
        lemma_done_step(tasks, prev, schedule.last(), tasks.len() as int);
        assert(prev.push(schedule.last()) == schedule);
    }
}

proof fn lemma_done_empty(tasks: Seq<Seq<ContextPair>>, schedule: Seq<int>, m: int)
    requires
        schedule.len() == 0,
        m <= tasks.len(),
    ensures
        done_of(tasks, schedule, m) == Multiset::<ContextPair>::empty(),
    decreases m,
{
    broadcast use {vstd::multiset::group_multiset_axioms, vstd::seq_lib::group_to_multiset_ensures, vstd::multiset::lemma_multiset_empty_len};

    if m > 0 {
        lemma_done_empty(tasks, schedule, m - 1);
        assert(tasks[m - 1].take(0) == Seq::<ContextPair>::empty());
        assert(done_of(tasks, schedule, m) =~= Multiset::empty());
    }
}

proof fn lemma_done_complete(tasks: Seq<Seq<ContextPair>>, schedule: Seq<int>, m: int)
    requires
        m <= tasks.len(),
        forall|j: int| 0 <= j < tasks.len() ==> count_of(schedule, j) == (#[trigger] tasks[j]).len(),
    ensures
        done_of(tasks, schedule, m) == union_of(tasks, m),
    decreases m,
{
    if m > 0 {
        lemma_done_complete(tasks, schedule, m - 1);
        assert(tasks[m - 1].take(tasks[m - 1].len() as int) == tasks[m - 1]);
    }
}

/// However the sentence tasks interleave their calls, once every task has had as
/// many turns as it has calls, the store has received exactly the calls of all
/// sentences together: none lost, none repeated.
pub proof fn lemma_interleaving(sentences: Seq<Seq<String>>, schedule: Seq<int>)
    requires
        forall|j: int|
            0 <= j < sentences.len() ==> count_of(schedule, j) == sentence_pairs_spec(
                #[trigger] sentences[j],
            ).len(),
    ensures
        issued(sentence_tasks(sentences), schedule).to_multiset() == union_of(
            sentence_tasks(sentences),
            sentences.len() as int,
        ),
{
    let tasks = sentence_tasks(sentences);
    assert forall|j: int| 0 <= j < tasks.len() implies count_of(schedule, j) == (
    #[trigger] tasks[j]).len() by {
        assert(tasks[j] == sentence_pairs_spec(sentences[j]));
    }
    lemma_issued_done(tasks, schedule);
    lemma_done_complete(tasks, schedule, tasks.len() as int);
}

} // verus!
