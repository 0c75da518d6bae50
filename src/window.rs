use vstd::prelude::*;

verus! {

/// How far, in positions, a neighbour may stand from its anchor.
pub const RANGE: isize = 3;

/// The neighbours found at offsets `first .. end` from `idx`, each paired with the
/// negated offset, skipping offsets that fall outside the sentence.
pub open spec fn nbhood(words: Seq<String>, idx: int, first: int, end: int) -> Seq<(String, i32)>
    decreases end - first,
{
    if end <= first {
        seq![]
    } else {
        let prev = nbhood(words, idx, first, end - 1);
        let x = end - 1;
        if 0 <= idx + x < words.len() {
            prev.push((words[idx + x], (-x) as i32))
        } else {
            prev
        }
    }
}

/// Neighbours before the anchor, farthest first, with positive distances.
pub open spec fn left_spec(words: Seq<String>, idx: int) -> Seq<(String, i32)> {
    nbhood(words, idx, -RANGE, 0)
}

/// Neighbours after the anchor, nearest first, with negative distances.
pub open spec fn right_spec(words: Seq<String>, idx: int) -> Seq<(String, i32)> {
    nbhood(words, idx, 1, RANGE + 1)
}

/// The element at a signed position, or `None` when the position is negative or
/// past the end.
pub fn get_by_isize(coll: &Vec<String>, idx: isize) -> (r: Option<&String>)
    ensures
        r is Some <==> 0 <= idx < coll@.len(),
        r is Some ==> *r->0 == coll@[idx as int],
{
    if idx < 0 {
        None
    } else if idx as usize >= coll.len() {
        None
    } else {
        Some(&coll[idx as usize])
    }
}

/// Collects `(coll[idx + x], -x)` for every offset `x` in `first .. end` whose
/// position lies inside `coll`, in ascending order of `x`.
pub fn nbhood_by_iter(coll: &Vec<String>, idx: usize, first: isize, end: isize) -> (r: Vec<(String, i32)>)
    requires
        -(i32::MAX as isize) <= first,
        end <= i32::MAX as isize + 1,
    ensures
        r@ == nbhood(coll@, idx as int, first as int, end as int),
{
    let mut r: Vec<(String, i32)> = Vec::new();
    if end <= first {
        return r;
    }
    let mut x: isize = first;
    while x < end
        invariant
            first <= x <= end,
            -(i32::MAX as isize) <= first,
            end <= i32::MAX as isize + 1,
            r@ == nbhood(coll@, idx as int, first as int, x as int),
        decreases end - x,
    {
        let p: i128 = idx as i128 + x as i128;
        if 0 <= p && p < coll.len() as i128 {
            let w = coll[p as usize].clone();
            r.push((w, (-x) as i32));
        }
        x = x + 1;
    }
    r
}

/// Neighbours of `idx` at offsets `-RANGE ..= -1`, farthest first, each with its
/// positive distance to the anchor.
pub fn left_nbhood(coll: &Vec<String>, idx: usize) -> (r: Vec<(String, i32)>)
    ensures
        r@ == left_spec(coll@, idx as int),
{
    nbhood_by_iter(coll, idx, -RANGE, 0)
}

/// Neighbours of `idx` at offsets `1 ..= RANGE`, nearest first, each with the
/// negated offset as its distance.
pub fn right_nbhood(coll: &Vec<String>, idx: usize) -> (r: Vec<(String, i32)>)
    ensures
        r@ == right_spec(coll@, idx as int),
{
    nbhood_by_iter(coll, idx, 1, RANGE + 1)
}

/// Every entry of `nbhood` comes from an offset in `first .. end`, names the word
/// that stands at `idx` minus its distance, and there are no more entries than
/// offsets.
proof fn lemma_nbhood_entries(words: Seq<String>, idx: int, first: int, end: int)
    requires
        -(i32::MAX as int) <= first,
        end <= i32::MAX as int + 1,
    ensures
        nbhood(words, idx, first, end).len() <= if end > first { end - first } else { 0 },
        forall|k: int|
            0 <= k < nbhood(words, idx, first, end).len() ==> {
                let e = #[trigger] nbhood(words, idx, first, end)[k];
                &&& first <= -(e.1 as int) < end
                &&& 0 <= idx - e.1 < words.len()
                &&& e.0 == words[idx - e.1]
            },
    decreases end - first,
{
    if end > first {
        lemma_nbhood_entries(words, idx, first, end - 1);
    }
}

/// For a position inside the sentence, the left window holds at most `RANGE`
/// entries whose distances lie in `1 ..= RANGE`, and the right window at most
/// `RANGE` entries whose distances lie in `-RANGE ..= -1`; no entry has distance
/// zero, so neither window holds the anchor itself.
pub proof fn lemma_window_distances(words: Seq<String>, idx: int)
    requires
        0 <= idx < words.len(),
    ensures
        left_spec(words, idx).len() <= RANGE,
        right_spec(words, idx).len() <= RANGE,
        forall|k: int|
            0 <= k < left_spec(words, idx).len() ==> 1 <= (#[trigger] left_spec(words, idx)[k]).1
                <= RANGE,
        forall|k: int|
            0 <= k < right_spec(words, idx).len() ==> -RANGE <= (
            #[trigger] right_spec(words, idx)[k]).1 <= -1,
{
    lemma_nbhood_entries(words, idx, -RANGE, 0);
    lemma_nbhood_entries(words, idx, 1, RANGE + 1);
}

/// Every word that the two windows of a position refer to stands at a position
/// of the same sentence: the anchor's position minus the entry's distance, which
/// lies in `0 .. words.len()`.
pub proof fn lemma_window_positions_in_bounds(words: Seq<String>, idx: int)
    requires
        0 <= idx < words.len(),
    ensures
        forall|k: int|
            0 <= k < left_spec(words, idx).len() ==> {
                let e = #[trigger] left_spec(words, idx)[k];
                0 <= idx - e.1 < words.len() && e.0 == words[idx - e.1]
            },
        forall|k: int|
            0 <= k < right_spec(words, idx).len() ==> {
                let e = #[trigger] right_spec(words, idx)[k];
                0 <= idx - e.1 < words.len() && e.0 == words[idx - e.1]
            },
{
    lemma_nbhood_entries(words, idx, -RANGE, 0);
    lemma_nbhood_entries(words, idx, 1, RANGE + 1);
}

} // verus!
