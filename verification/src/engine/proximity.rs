//! The proximity window: the length of the shortest stretch of a document
//! that holds every query token.
use vstd::prelude::*;

verus! {

/// The occurrences are in ascending order of position.
pub open spec fn by_position(pairs: Seq<(u32, u32)>) -> bool {
    forall|i: int, j: int| 0 <= i < j < pairs.len() ==> pairs[i].0 <= pairs[j].0
}

/// Occurrence `k` is of token `id`.
pub open spec fn is_of(pairs: Seq<(u32, u32)>, k: int, id: int) -> bool {
    pairs[k].1 == id
}

/// One of the occurrences from `i` to `j` is of token `id`.
pub open spec fn holds_token(pairs: Seq<(u32, u32)>, i: int, j: int, id: int) -> bool {
    exists|k: int| i <= k <= j && #[trigger] is_of(pairs, k, id)
}

/// The occurrences from `i` to `j` hold each of the `tokens` query tokens.
pub open spec fn covers(pairs: Seq<(u32, u32)>, tokens: nat, i: int, j: int) -> bool {
    &&& tokens > 0
    &&& 0 <= i <= j < pairs.len()
    &&& forall|id: int| 0 <= id < tokens ==> #[trigger] holds_token(pairs, i, j, id)
}

/// The number of positions from that of occurrence `i` to that of `j`.
pub open spec fn width(pairs: Seq<(u32, u32)>, i: int, j: int) -> int {
    pairs[j].0 - pairs[i].0 + 1
}

/// `w` is the proximity window of the occurrences `pairs` (position and
/// query token index of each) for `tokens` query tokens: the least width
/// of a stretch that covers all tokens, or the largest `u32` if none does.
pub open spec fn is_proximity_window(pairs: Seq<(u32, u32)>, tokens: nat, w: u32) -> bool {
    &&& forall|i: int, j: int| #[trigger] covers(pairs, tokens, i, j) ==> w <= width(pairs, i, j)
    &&& (exists|i: int, j: int| #[trigger] covers(pairs, tokens, i, j) && w == width(pairs, i, j))
        || (w == u32::MAX && forall|i: int, j: int| !#[trigger] covers(pairs, tokens, i, j))
}

/// Occurrences have one proximity window only.
pub proof fn lemma_window_unique(pairs: Seq<(u32, u32)>, tokens: nat, v: u32, w: u32)
    requires
        is_proximity_window(pairs, tokens, v),
        is_proximity_window(pairs, tokens, w),
    ensures
        v == w,
{
    if exists|i: int, j: int| #[trigger] covers(pairs, tokens, i, j) && v == width(pairs, i, j) {
        let (i, j) = choose|i: int, j: int|
            #[trigger] covers(pairs, tokens, i, j) && v == width(pairs, i, j);
        assert(w <= width(pairs, i, j));
    }
    if exists|i: int, j: int| #[trigger] covers(pairs, tokens, i, j) && w == width(pairs, i, j) {
        let (i, j) = choose|i: int, j: int|
            #[trigger] covers(pairs, tokens, i, j) && w == width(pairs, i, j);
        assert(v <= width(pairs, i, j));
    }
}

/// How many of the occurrences from `lo` up to `hi` (exclusive) are of
/// token `id`.
pub open spec fn count_in(pairs: Seq<(u32, u32)>, lo: int, hi: int, id: int) -> nat
    decreases hi - lo,
{
    if lo >= hi {
        0
    } else {
        count_in(pairs, lo, hi - 1, id) + (if pairs[hi - 1].1 == id {
            1nat
        } else {
            0nat
        })
    }
}

proof fn lemma_count_front(pairs: Seq<(u32, u32)>, lo: int, hi: int, id: int)
    requires
        0 <= lo < hi <= pairs.len(),
    ensures
        count_in(pairs, lo, hi, id) == count_in(pairs, lo + 1, hi, id) + (if pairs[lo].1 == id {
            1nat
        } else {
            0nat
        }),
    decreases hi - lo,
{
    if lo + 1 < hi {
        lemma_count_front(pairs, lo, hi - 1, id);
    } else {
        assert(count_in(pairs, lo, hi - 1, id) == 0);
        assert(count_in(pairs, lo + 1, hi, id) == 0);
    }
}

proof fn lemma_count_positive(pairs: Seq<(u32, u32)>, lo: int, hi: int, id: int)
    requires
        0 <= lo <= hi <= pairs.len(),
    ensures
        count_in(pairs, lo, hi, id) > 0 <==> exists|k: int|
            lo <= k < hi && #[trigger] is_of(pairs, k, id),
        count_in(pairs, lo, hi, id) <= hi - lo,
    decreases hi - lo,
{
    if lo < hi {
        lemma_count_positive(pairs, lo, hi - 1, id);
        if pairs[hi - 1].1 == id {
            assert(lo <= hi - 1 < hi && is_of(pairs, hi - 1, id));
        }
        if exists|k: int| lo <= k < hi && #[trigger] is_of(pairs, k, id) {
            let k = choose|k: int| lo <= k < hi && #[trigger] is_of(pairs, k, id);
            if k < hi - 1 {
                assert(lo <= k < hi - 1 && is_of(pairs, k, id));
            }
        }
        if exists|k: int| lo <= k < hi - 1 && #[trigger] is_of(pairs, k, id) {
            let k = choose|k: int| lo <= k < hi - 1 && #[trigger] is_of(pairs, k, id);
            assert(lo <= k < hi && is_of(pairs, k, id));
        }
    }
}

/// A stretch that covers the tokens still does when it is made longer.
proof fn lemma_covers_grows(pairs: Seq<(u32, u32)>, tokens: nat, i: int, j: int, a: int, b: int)
    requires
        covers(pairs, tokens, i, j),
        0 <= a <= i,
        j <= b < pairs.len(),
    ensures
        covers(pairs, tokens, a, b),
{
    assert forall|id: int| 0 <= id < tokens implies #[trigger] holds_token(pairs, a, b, id) by {
        assert(holds_token(pairs, i, j, id));
        let k = choose|k: int| i <= k <= j && #[trigger] is_of(pairs, k, id);
        assert(a <= k <= b && is_of(pairs, k, id));
    }
}

/// The counts are those of the occurrences from `lo` up to `hi`.
spec fn counted(counts: Seq<usize>, pairs: Seq<(u32, u32)>, lo: int, hi: int) -> bool {
    forall|id: int| 0 <= id < counts.len() ==> #[trigger] counts[id] == count_in(pairs, lo, hi, id)
}

/// With the counts at hand, a stretch covers the tokens if every count is
/// positive.
proof fn lemma_counted_covers(counts: Seq<usize>, pairs: Seq<(u32, u32)>, lo: int, hi: int)
    requires
        counted(counts, pairs, lo, hi),
        0 <= lo <= hi <= pairs.len(),
        counts.len() > 0,
    ensures
        (forall|id: int| 0 <= id < counts.len() ==> #[trigger] counts[id] > 0) <==> (lo < hi
            && covers(pairs, counts.len(), lo, hi - 1)),
{
    if forall|id: int| 0 <= id < counts.len() ==> #[trigger] counts[id] > 0 {
        assert(counts[0] > 0);
        lemma_count_positive(pairs, lo, hi, 0);
        assert forall|id: int| 0 <= id < counts.len() implies #[trigger] holds_token(
            pairs,
            lo,
            hi - 1,
            id,
        ) by {
            assert(counts[id] > 0);
            lemma_count_positive(pairs, lo, hi, id);
            let k = choose|k: int| lo <= k < hi && #[trigger] is_of(pairs, k, id);
            assert(lo <= k <= hi - 1 && is_of(pairs, k, id));
        }
    }
    if lo < hi && covers(pairs, counts.len(), lo, hi - 1) {
        assert forall|id: int| 0 <= id < counts.len() implies #[trigger] counts[id] > 0 by {
            assert(holds_token(pairs, lo, hi - 1, id));
            let k = choose|k: int| lo <= k <= hi - 1 && #[trigger] is_of(pairs, k, id);
            assert(lo <= k < hi && is_of(pairs, k, id));
            lemma_count_positive(pairs, lo, hi, id);
        }
    }
}

/// Whether every count is positive.
fn all_positive(counts: &Vec<usize>) -> (r: bool)
    ensures
        r == forall|id: int| 0 <= id < counts@.len() ==> #[trigger] counts@[id] > 0,
{
    let mut i: usize = 0;
    while i < counts.len()
        invariant
            i <= counts.len(),
            forall|id: int| 0 <= id < i ==> #[trigger] counts@[id] > 0,
        decreases counts.len() - i,
    {
        if counts[i] == 0 {
            return false;
        }
        i += 1;
    }
    true
}

/// Counts one more occurrence of a token.
fn count_up(counts: &mut Vec<usize>, id: usize)
    requires
        id < old(counts)@.len(),
        old(counts)@[id as int] < usize::MAX,
    ensures
        final(counts)@ == old(counts)@.update(id as int, (old(counts)@[id as int] + 1) as usize),
{
    let c: usize = counts[id];
    counts[id] = c + 1;
}

/// Counts one occurrence of a token less.
fn count_down(counts: &mut Vec<usize>, id: usize)
    requires
        id < old(counts)@.len(),
        old(counts)@[id as int] > 0,
    ensures
        final(counts)@ == old(counts)@.update(id as int, (old(counts)@[id as int] - 1) as usize),
{
    let c: usize = counts[id];
    counts[id] = c - 1;
}

/// The proximity window of the occurrences of `num_tokens` query tokens in
/// a document, given position and query token index of each occurrence,
/// in ascending order of position.
pub fn proximity_window(pairs: &Vec<(u32, u32)>, num_tokens: usize) -> (window: u32)
    requires
        by_position(pairs@),
        forall|k: int| 0 <= k < pairs@.len() ==> (#[trigger] pairs@[k]).1 < num_tokens,
        forall|k: int| 0 <= k < pairs@.len() ==> (#[trigger] pairs@[k]).0 < u32::MAX,
    ensures
        is_proximity_window(pairs@, num_tokens as nat, window),
{
    let mut window: u32 = u32::MAX;
    if num_tokens == 0 {
        return window;
    }
    let mut counts: Vec<usize> = Vec::new();
    let mut t: usize = 0;
    while t < num_tokens
        invariant
            t <= num_tokens,
            counts@.len() == t,
            forall|id: int| 0 <= id < t ==> #[trigger] counts@[id] == 0,
        decreases num_tokens - t,
    {
        counts.push(0);
        t += 1;
    }
    let ghost ps = pairs@;
    let ghost tokens = num_tokens as nat;
    let ghost mut found: Option<(int, int)> = None;
    let mut any: bool = false;
    let mut lo: usize = 0;
    let mut hi: usize = 0;
    while hi < pairs.len()
        invariant
            lo <= hi <= pairs.len(),
            ps == pairs@,
            tokens == num_tokens,
            tokens > 0,
            counts@.len() == num_tokens,
            by_position(ps),
            forall|k: int| 0 <= k < ps.len() ==> (#[trigger] ps[k]).1 < num_tokens,
            forall|k: int| 0 <= k < ps.len() ==> (#[trigger] ps[k]).0 < u32::MAX,
            counted(counts@, ps, lo as int, hi as int),
            !(lo < hi && covers(ps, tokens, lo as int, hi - 1)),
            forall|i: int, j: int|
                0 <= i < lo && #[trigger] covers(ps, tokens, i, j) ==> window <= width(ps, i, j),
            any == found is Some,
            !any ==> lo == 0,
            match found {
                Some((i, j)) => covers(ps, tokens, i, j) && window == width(ps, i, j),
                None => window == u32::MAX,
            },
        decreases pairs.len() - hi,
    {
        let id: usize = pairs[hi].1 as usize;
        proof {
            lemma_count_positive(ps, lo as int, hi as int, id as int);
        }
        count_up(&mut counts, id);
        proof {
            assert forall|x: int| 0 <= x < counts@.len() implies #[trigger] counts@[x] == count_in(
                ps,
                lo as int,
                hi + 1,
                x,
            ) by {}
        }
        loop
            invariant
                lo <= hi + 1,
                hi < pairs.len(),
                ps == pairs@,
                tokens == num_tokens,
                tokens > 0,
                counts@.len() == num_tokens,
                by_position(ps),
                forall|k: int| 0 <= k < ps.len() ==> (#[trigger] ps[k]).1 < num_tokens,
                forall|k: int| 0 <= k < ps.len() ==> (#[trigger] ps[k]).0 < u32::MAX,
                counted(counts@, ps, lo as int, hi + 1),
                !(lo < hi && covers(ps, tokens, lo as int, hi - 1)),
                forall|i: int, j: int|
                    0 <= i < lo && #[trigger] covers(ps, tokens, i, j) ==> window <= width(
                        ps,
                        i,
                        j,
                    ),
                any == found is Some,
                !any ==> lo == 0,
            !any ==> lo == 0,
                match found {
                    Some((i, j)) => covers(ps, tokens, i, j) && window == width(ps, i, j),
                    None => window == u32::MAX,
                },
            ensures
                lo <= hi + 1,
                counted(counts@, ps, lo as int, hi + 1),
                !(lo < hi + 1 && covers(ps, tokens, lo as int, hi as int)),
                forall|i: int, j: int|
                    0 <= i < lo && #[trigger] covers(ps, tokens, i, j) ==> window <= width(
                        ps,
                        i,
                        j,
                    ),
                any == found is Some,
                !any ==> lo == 0,
            !any ==> lo == 0,
                match found {
                    Some((i, j)) => covers(ps, tokens, i, j) && window == width(ps, i, j),
                    None => window == u32::MAX,
                },
            decreases hi + 1 - lo,
        {
            proof {
                lemma_counted_covers(counts@, ps, lo as int, hi + 1);
            }
            if !all_positive(&counts) {
                break ;
            }
            // the stretch from `lo` to `hi` covers the tokens, and no shorter
            // one that starts at `lo` does
            let here: u32 = pairs[hi].0 - pairs[lo].0 + 1;
            proof {
                assert forall|j: int| #[trigger] covers(ps, tokens, lo as int, j) implies here
                    <= width(ps, lo as int, j) by {
                    if j < hi {
                        lemma_covers_grows(ps, tokens, lo as int, j, lo as int, hi - 1);
                    }
                }
            }
            if !any || here < window {
                window = here;
                any = true;
                proof {
                    found = Some((lo as int, hi as int));
                }
            }
            let out: usize = pairs[lo].1 as usize;
            proof {
                lemma_count_front(ps, lo as int, hi + 1, out as int);
                assert(counts@[out as int] > 0);
            }
            let ghost before = counts@;
            count_down(&mut counts, out);
            proof {
                assert forall|x: int| 0 <= x < counts@.len() implies #[trigger] counts@[x]
                    == count_in(ps, lo + 1, hi + 1, x) by {
                    lemma_count_front(ps, lo as int, hi + 1, x);
                    assert(before[x] == count_in(ps, lo as int, hi + 1, x));
                }
                if lo + 1 < hi && covers(ps, tokens, lo + 1, hi - 1) {
                    lemma_covers_grows(ps, tokens, lo + 1, hi - 1, lo as int, hi - 1);
                }
            }
            lo += 1;
        }
        hi += 1;
    }
    proof {
        assert forall|i: int, j: int| #[trigger] covers(ps, tokens, i, j) implies window <= width(
            ps,
            i,
            j,
        ) by {
            if i >= lo {
                lemma_covers_grows(ps, tokens, i, j, lo as int, hi - 1);
            }
        }
        match found {
            Some((i, j)) => {
                assert(covers(ps, tokens, i, j) && window == width(ps, i, j));
            },
            None => {
                assert forall|i: int, j: int| !#[trigger] covers(ps, tokens, i, j) by {
                    if covers(ps, tokens, i, j) {
                        if i >= lo {
                            lemma_covers_grows(ps, tokens, i, j, lo as int, hi - 1);
                        } else {
                            assert(window <= width(ps, i, j));
                        }
                    }
                }
            },
        }
    }
    window
}

} // verus!
