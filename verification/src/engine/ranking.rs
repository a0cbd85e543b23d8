//! The integer side of ranked queries: which documents hold which query
//! tokens, how often, and how close together.
use vstd::prelude::*;
use vstd::seq_lib::to_multiset_build;
use crate::disk::codes::strictly_ascending;
use crate::engine::postings::{
    Postings, PostingsList, postings_view, document_ids, ascending_postings,
};
use crate::engine::proximity::{by_position, is_proximity_window, proximity_window};

verus! {

broadcast use vstd::multiset::group_multiset_axioms;

/// That a document holds a query token, and how often.
#[derive(Debug, Clone, Copy, PartialEq, Eq, Structural)]
pub struct TermHit {
    /// The index of the token in the query.
    pub token: u32,
    /// How often the document holds it.
    pub document_frequency: u32,
}

/// What a ranked query finds in one document.
pub struct DocumentMatch {
    pub document_id: u32,
    /// The query tokens that the document holds, in query order.
    pub hits: Vec<TermHit>,
    /// The proximity window of the query tokens in the document.
    pub window: u32,
}

/// The postings of each query token.
pub open spec fn lists_view(lists: Seq<PostingsList>) -> Seq<Seq<(u32, u32, Seq<u32>)>> {
    lists.map_values(|l: PostingsList| postings_view(l@))
}

/// The lists can be matched: each is as lists are that were read, and
/// their number is that of the tokens of a query.
pub open spec fn matchable(lists: Seq<Seq<(u32, u32, Seq<u32>)>>) -> bool {
    &&& lists.len() <= u32::MAX
    &&& forall|q: int| 0 <= q < lists.len() ==> ascending_postings(#[trigger] lists[q])
}

/// The place of the posting of document `d` in a list, if it has one.
pub open spec fn posting_of(list: Seq<(u32, u32, Seq<u32>)>, d: u32) -> Option<int> {
    if exists|k: int| 0 <= k < list.len() && list[k].0 == d {
        Some(choose|k: int| 0 <= k < list.len() && list[k].0 == d)
    } else {
        None
    }
}

/// The hits of document `d` for the first `n` query tokens.
pub open spec fn hits_of(lists: Seq<Seq<(u32, u32, Seq<u32>)>>, d: u32, n: nat) -> Seq<TermHit>
    decreases n,
{
    if n == 0 {
        Seq::empty()
    } else {
        let rest = hits_of(lists, d, (n - 1) as nat);
        match posting_of(lists[n - 1], d) {
            Some(k) => rest.push(
                TermHit { token: (n - 1) as u32, document_frequency: lists[n - 1][k].1 },
            ),
            None => rest,
        }
    }
}

/// Each position paired with the token index `q`.
pub open spec fn paired(positions: Seq<u32>, q: u32) -> Seq<(u32, u32)> {
    positions.map_values(|p: u32| (p, q))
}

/// The occurrences in document `d` of the first `n` query tokens, token
/// by token.
pub open spec fn occurrences_of(lists: Seq<Seq<(u32, u32, Seq<u32>)>>, d: u32, n: nat) -> Seq<
    (u32, u32),
>
    decreases n,
{
    if n == 0 {
        Seq::empty()
    } else {
        let rest = occurrences_of(lists, d, (n - 1) as nat);
        match posting_of(lists[n - 1], d) {
            Some(k) => rest + paired(lists[n - 1][k].2, (n - 1) as u32),
            None => rest,
        }
    }
}

/// `a` comes before `b`, or is `b`: by position, then by token index.
pub open spec fn pair_le(a: (u32, u32), b: (u32, u32)) -> bool {
    a.0 < b.0 || (a.0 == b.0 && a.1 <= b.1)
}

/// The pairs are in order.
pub open spec fn ordered(pairs: Seq<(u32, u32)>) -> bool {
    forall|i: int, j: int| 0 <= i < j < pairs.len() ==> pair_le(pairs[i], pairs[j])
}

/// `sorted` holds the pairs of `pairs`, in order.
pub open spec fn is_sorted_of(pairs: Seq<(u32, u32)>, sorted: Seq<(u32, u32)>) -> bool {
    ordered(sorted) && sorted.to_multiset() == pairs.to_multiset()
}

/// `m` is what a query whose tokens have the postings `lists` finds in
/// document `d`.
pub open spec fn is_match(lists: Seq<Seq<(u32, u32, Seq<u32>)>>, d: u32, m: DocumentMatch) -> bool {
    &&& m.document_id == d
    &&& m.hits@ == hits_of(lists, d, lists.len())
    &&& exists|sorted: Seq<(u32, u32)>|
        #[trigger] is_sorted_of(occurrences_of(lists, d, lists.len()), sorted)
            && is_proximity_window(sorted, lists.len(), m.window)
}

/// `matches` is what a query whose tokens have the postings `lists` finds:
/// one match for each document that holds one of the tokens, in ascending
/// order of document id.
pub open spec fn are_matches(lists: Seq<Seq<(u32, u32, Seq<u32>)>>, matches: Seq<DocumentMatch>) -> bool {
    &&& forall|i: int, j: int|
        0 <= i < j < matches.len() ==> matches[i].document_id < matches[j].document_id
    &&& forall|i: int|
        0 <= i < matches.len() ==> is_match(lists, (#[trigger] matches[i]).document_id, matches[i])
    &&& forall|d: u32|
        matched(lists, d, lists.len()) <==> exists|i: int|
            0 <= i < matches.len() && (#[trigger] matches[i]).document_id == d
}

/// Document `d` holds one of the first `n` query tokens.
pub open spec fn matched(lists: Seq<Seq<(u32, u32, Seq<u32>)>>, d: u32, n: nat) -> bool {
    exists|q: int| 0 <= q < n && #[trigger] document_ids(lists[q]).contains(d)
}

/// A document has one posting in a list at most.
pub proof fn lemma_posting_of(list: Seq<(u32, u32, Seq<u32>)>, d: u32, k: int)
    requires
        strictly_ascending(document_ids(list)),
        0 <= k < list.len(),
        list[k].0 == d,
    ensures
        posting_of(list, d) == Some(k),
{
    let ids = document_ids(list);
    let c = posting_of(list, d)->Some_0;
    assert(0 <= c < list.len() && list[c].0 == d);
    assert(ids[c] == list[c].0 && ids[k] == list[k].0);
    if c < k {
        assert(ids[c] < ids[k]);
    } else if k < c {
        assert(ids[k] < ids[c]);
    }
}

/// Pairs can be put in order in one way only.
pub proof fn lemma_sorted_unique(a: Seq<(u32, u32)>, b: Seq<(u32, u32)>)
    requires
        ordered(a),
        ordered(b),
        a.to_multiset() == b.to_multiset(),
    ensures
        a == b,
    decreases a.len(),
{
    a.to_multiset_ensures();
    b.to_multiset_ensures();
    if a.len() == 0 {
        assert(a =~= b);
    } else {
        assert(a.contains(a[0]));
        assert(b.to_multiset().count(a[0]) > 0);
        assert(b.contains(a[0]));
        let k = choose|k: int| 0 <= k < b.len() && b[k] == a[0];
        assert(b.contains(b[0]));
        assert(a.to_multiset().count(b[0]) > 0);
        assert(a.contains(b[0]));
        let m = choose|m: int| 0 <= m < a.len() && a[m] == b[0];
        if k > 0 {
            assert(pair_le(b[0], b[k]));
        }
        if m > 0 {
            assert(pair_le(a[0], a[m]));
        }
        assert(a[0] == b[0]);
        let ta = a.drop_first();
        let tb = b.drop_first();
        vstd::seq_lib::to_multiset_remove(a, 0);
        vstd::seq_lib::to_multiset_remove(b, 0);
        assert(a.remove(0) =~= ta);
        assert(b.remove(0) =~= tb);
        assert(ordered(ta)) by {
            assert forall|i: int, j: int| 0 <= i < j < ta.len() implies pair_le(ta[i], ta[j]) by {
                assert(ta[i] == a[i + 1] && ta[j] == a[j + 1]);
            }
        }
        assert(ordered(tb)) by {
            assert forall|i: int, j: int| 0 <= i < j < tb.len() implies pair_le(tb[i], tb[j]) by {
                assert(tb[i] == b[i + 1] && tb[j] == b[j + 1]);
            }
        }
        lemma_sorted_unique(ta, tb);
        assert(a =~= seq![a[0]] + ta);
        assert(b =~= seq![b[0]] + tb);
    }
}

/// A document has one match only: what a query finds in it is a function
/// of the postings of its tokens.
pub proof fn lemma_match_unique(
    lists: Seq<Seq<(u32, u32, Seq<u32>)>>,
    d: u32,
    a: DocumentMatch,
    b: DocumentMatch,
)
    requires
        is_match(lists, d, a),
        is_match(lists, d, b),
    ensures
        a.document_id == b.document_id,
        a.hits@ == b.hits@,
        a.window == b.window,
{
    let all = occurrences_of(lists, d, lists.len());
    let x = choose|sorted: Seq<(u32, u32)>|
        #[trigger] is_sorted_of(all, sorted) && is_proximity_window(sorted, lists.len(), a.window);
    let y = choose|sorted: Seq<(u32, u32)>|
        #[trigger] is_sorted_of(all, sorted) && is_proximity_window(sorted, lists.len(), b.window);
    lemma_sorted_unique(x, y);
    crate::engine::proximity::lemma_window_unique(x, lists.len(), a.window, b.window);
}

/// The place of the posting of document `d` in a list.
pub fn find_posting(list: &PostingsList, d: u32) -> (r: Option<usize>)
    requires
        strictly_ascending(document_ids(postings_view(list@))),
    ensures
        r matches Some(k) ==> k < list@.len() && list@[k as int].document_id == d && posting_of(
            postings_view(list@),
            d,
        ) == Some(k as int),
        r is None ==> posting_of(postings_view(list@), d) is None,
{
    let ghost v = postings_view(list@);
    let ghost ids = document_ids(v);
    let mut lo: usize = 0;
    let mut hi: usize = list.len();
    while lo < hi
        invariant
            lo <= hi <= list.len(),
            v == postings_view(list@),
            ids == document_ids(v),
            strictly_ascending(ids),
            forall|k: int| 0 <= k < lo ==> (#[trigger] v[k]).0 < d,
            forall|k: int| hi <= k < v.len() ==> (#[trigger] v[k]).0 > d,
        decreases hi - lo,
    {
        let mid: usize = lo + (hi - lo) / 2;
        let here: u32 = list[mid].document_id;
        proof {
            assert(v[mid as int].0 == here);
            assert(ids[mid as int] == here);
        }
        if here < d {
            proof {
                assert forall|k: int| 0 <= k < mid + 1 implies (#[trigger] v[k]).0 < d by {
                    if k < mid {
                        assert(ids[k] == v[k].0);
                        assert(ids[k] < ids[mid as int]);
                    }
                }
            }
            lo = mid + 1;
        } else if here > d {
            proof {
                assert forall|k: int| mid <= k < v.len() implies (#[trigger] v[k]).0 > d by {
                    if k > mid {
                        assert(ids[k] == v[k].0);
                        assert(ids[mid as int] < ids[k]);
                    }
                }
            }
            hi = mid;
        } else {
            proof {
                lemma_posting_of(v, d, mid as int);
            }
            return Some(mid);
        }
    }
    proof {
        if exists|k: int| 0 <= k < v.len() && v[k].0 == d {
            let c = choose|k: int| 0 <= k < v.len() && v[k].0 == d;
            assert(v[c].0 == d);
        }
    }
    None
}

/// Merges two runs of pairs that are in order into one.
fn merge_pairs(a: &Vec<(u32, u32)>, b: &Vec<(u32, u32)>) -> (out: Vec<(u32, u32)>)
    requires
        ordered(a@),
        ordered(b@),
    ensures
        ordered(out@),
        out@.to_multiset() == a@.to_multiset().add(b@.to_multiset()),
{
    let mut out: Vec<(u32, u32)> = Vec::new();
    let mut i: usize = 0;
    let mut j: usize = 0;
    proof {
        assert(a@.take(0) =~= Seq::empty());
        assert(b@.take(0) =~= Seq::empty());
        assert(out@ =~= Seq::empty());
        out@.to_multiset_ensures();
        vstd::multiset::lemma_multiset_empty_len(out@.to_multiset());
        assert(out@.to_multiset() =~= a@.take(0).to_multiset().add(b@.take(0).to_multiset()));
    }
    while i < a.len() || j < b.len()
        invariant
            i <= a.len(),
            j <= b.len(),
            ordered(a@),
            ordered(b@),
            ordered(out@),
            out@.to_multiset() == a@.take(i as int).to_multiset().add(
                b@.take(j as int).to_multiset(),
            ),
            forall|k: int|
                0 <= k < out@.len() ==> (i < a@.len() ==> pair_le(#[trigger] out@[k], a@[i as int]))
                    && (j < b@.len() ==> pair_le(out@[k], b@[j as int])),
        decreases a.len() - i + b.len() - j,
    {
        let ghost before = out@;
        let from_a: bool = if j >= b.len() {
            true
        } else if i >= a.len() {
            false
        } else {
            a[i].0 < b[j].0 || (a[i].0 == b[j].0 && a[i].1 <= b[j].1)
        };
        let x: (u32, u32) = if from_a {
            a[i]
        } else {
            b[j]
        };
        out.push(x);
        proof {
            to_multiset_build(before, x);
            if from_a {
                to_multiset_build(a@.take(i as int), x);
                assert(a@.take(i + 1) =~= a@.take(i as int).push(x));
            } else {
                to_multiset_build(b@.take(j as int), x);
                assert(b@.take(j + 1) =~= b@.take(j as int).push(x));
            }
            let ni = if from_a { i + 1 } else { i as int };
            let nj = if from_a { j as int } else { j + 1 };
            assert(out@.to_multiset() =~= a@.take(ni).to_multiset().add(
                b@.take(nj).to_multiset(),
            ));
            assert forall|p: int, q: int| 0 <= p < q < out@.len() implies pair_le(
                out@[p],
                out@[q],
            ) by {
                if q < before.len() {
                    assert(out@[p] == before[p] && out@[q] == before[q]);
                } else {
                    assert(out@[p] == before[p]);
                }
            }
            assert forall|k: int| 0 <= k < out@.len() implies (ni < a@.len() ==> pair_le(
                #[trigger] out@[k],
                a@[ni],
            )) && (nj < b@.len() ==> pair_le(out@[k], b@[nj])) by {
                if k < before.len() {
                    assert(out@[k] == before[k]);
                }
                if from_a && ni < a@.len() {
                    assert(pair_le(a@[i as int], a@[ni]));
                }
                if !from_a && nj < b@.len() {
                    assert(pair_le(b@[j as int], b@[nj]));
                }
            }
        }
        if from_a {
            i += 1;
        } else {
            j += 1;
        }
    }
    proof {
        assert(a@.take(i as int) =~= a@);
        assert(b@.take(j as int) =~= b@);
    }
    out
}

/// The pairs from `from` up to `to`.
fn slice_pairs(v: &Vec<(u32, u32)>, from: usize, to: usize) -> (out: Vec<(u32, u32)>)
    requires
        from <= to <= v@.len(),
    ensures
        out@ == v@.subrange(from as int, to as int),
{
    let mut out: Vec<(u32, u32)> = Vec::new();
    let mut i: usize = from;
    while i < to
        invariant
            from <= i <= to,
            to <= v@.len(),
            out@ == v@.subrange(from as int, i as int),
        decreases to - i,
    {
        out.push(v[i]);
        proof {
            assert(v@.subrange(from as int, i + 1) =~= v@.subrange(from as int, i as int).push(
                v@[i as int],
            ));
        }
        i += 1;
    }
    out
}

/// Sorts pairs by position, then by token index.
pub fn sort_pairs(pairs: &Vec<(u32, u32)>) -> (sorted: Vec<(u32, u32)>)
    ensures
        is_sorted_of(pairs@, sorted@),
    decreases pairs@.len(),
{
    if pairs.len() <= 1 {
        let copy = slice_pairs(pairs, 0, pairs.len());
        proof {
            assert(copy@ =~= pairs@);
        }
        return copy;
    }
    let mid: usize = pairs.len() / 2;
    let left = slice_pairs(pairs, 0, mid);
    let right = slice_pairs(pairs, mid, pairs.len());
    proof {
        assert(pairs@ =~= left@ + right@);
        vstd::seq_lib::lemma_multiset_commutative(left@, right@);
    }
    let left = sort_pairs(&left);
    let right = sort_pairs(&right);
    merge_pairs(&left, &right)
}

/// Hits and occurrences of document `d`.
fn gather(lists: &Vec<PostingsList>, d: u32) -> (r: (Vec<TermHit>, Vec<(u32, u32)>))
    requires
        matchable(lists_view(lists@)),
    ensures
        r.0@ == hits_of(lists_view(lists@), d, lists@.len()),
        r.1@ == occurrences_of(lists_view(lists@), d, lists@.len()),
        forall|k: int| 0 <= k < r.1@.len() ==> (#[trigger] r.1@[k]).1 < lists@.len() && r.1@[k].0
            < u32::MAX,
{
    let ghost lv = lists_view(lists@);
    let mut hits: Vec<TermHit> = Vec::new();
    let mut pairs: Vec<(u32, u32)> = Vec::new();
    let mut q: usize = 0;
    while q < lists.len()
        invariant
            q <= lists.len(),
            lv == lists_view(lists@),
            matchable(lv),
            hits@ == hits_of(lv, d, q as nat),
            pairs@ == occurrences_of(lv, d, q as nat),
            forall|k: int| 0 <= k < pairs@.len() ==> (#[trigger] pairs@[k]).1 < q && pairs@[k].0
                < u32::MAX,
        decreases lists.len() - q,
    {
        let list = &lists[q];
        let ghost hits0 = hits@;
        let ghost pairs0 = pairs@;
        proof {
            assert(lv[q as int] == postings_view(list@));
            assert(strictly_ascending(document_ids(lv[q as int])));
        }
        match find_posting(list, d) {
            Some(k) => {
                let entry = &list[k];
                let ghost view = lv[q as int][k as int];
                proof {
                    assert(view == entry@);
                    assert(strictly_ascending(view.2));
                    assert(posting_of(lv[q as int], d) == Some(k as int));
                }
                hits.push(TermHit { token: q as u32, document_frequency: entry.document_frequency });
                proof {
                    assert(hits@ =~= hits_of(lv, d, (q + 1) as nat));
                }
                let ghost base = pairs@;
                let mut x: usize = 0;
                proof {
                    assert(paired(view.2.take(0), q as u32) =~= Seq::empty());
                    assert(base + paired(view.2.take(0), q as u32) =~= base);
                }
                while x < entry.positions.len()
                    invariant
                        x <= entry.positions.len(),
                        q < lists.len(),
                        lists@.len() <= u32::MAX,
                        view.2 == entry.positions@,
                        forall|y: int| 0 <= y < view.2.len() ==> view.2[y] < u32::MAX,
                        pairs@ == base + paired(view.2.take(x as int), q as u32),
                        forall|k: int|
                            0 <= k < pairs@.len() ==> (#[trigger] pairs@[k]).1 < q + 1
                                && pairs@[k].0 < u32::MAX,
                    decreases entry.positions.len() - x,
                {
                    let p: u32 = entry.positions[x];
                    let ghost held = pairs@;
                    pairs.push((p, q as u32));
                    proof {
                        assert(paired(view.2.take(x + 1), q as u32) =~= paired(
                            view.2.take(x as int),
                            q as u32,
                        ).push((p, q as u32)));
                        assert(pairs@ =~= base + paired(view.2.take(x + 1), q as u32));
                        assert forall|k: int| 0 <= k < pairs@.len() implies (#[trigger] pairs@[k]).1
                            < q + 1 && pairs@[k].0 < u32::MAX by {
                            if k < held.len() {
                                assert(pairs@[k] == held[k]);
                            }
                        }
                    }
                    x += 1;
                }
                proof {
                    assert(view.2.take(x as int) =~= view.2);
                    assert(pairs@ =~= occurrences_of(lv, d, (q + 1) as nat));
                }
            },
            None => {
                proof {
                    assert(hits@ =~= hits_of(lv, d, (q + 1) as nat));
                    assert(pairs@ =~= occurrences_of(lv, d, (q + 1) as nat));
                }
            },
        }
        q += 1;
    }
    (hits, pairs)
}

/// The ids, ascending, of the documents that hold a query token.
fn matched_ids(lists: &Vec<PostingsList>) -> (ids: Vec<u32>)
    requires
        matchable(lists_view(lists@)),
    ensures
        strictly_ascending(ids@),
        forall|d: u32| ids@.contains(d) <==> matched(lists_view(lists@), d, lists@.len()),
{
    let ghost lv = lists_view(lists@);
    let mut ids: Vec<u32> = Vec::new();
    let mut q: usize = 0;
    while q < lists.len()
        invariant
            q <= lists.len(),
            lv == lists_view(lists@),
            matchable(lv),
            strictly_ascending(ids@),
            forall|d: u32| ids@.contains(d) <==> matched(lv, d, q as nat),
        decreases lists.len() - q,
    {
        let list = &lists[q];
        let mut own: Vec<u32> = Vec::new();
        let mut k: usize = 0;
        let ghost all = document_ids(lv[q as int]);
        proof {
            assert(lv[q as int] == postings_view(list@));
        }
        while k < list.len()
            invariant
                k <= list.len(),
                all == document_ids(postings_view(list@)),
                own@ == all.take(k as int),
            decreases list.len() - k,
        {
            proof {
                assert(all.take(k + 1) =~= all.take(k as int).push(list@[k as int].document_id));
            }
            own.push(list[k].document_id);
            k += 1;
        }
        proof {
            assert(all.take(k as int) =~= all);
        }
        let ghost before = ids@;
        ids = Postings::or_operator(ids, own);
        proof {
            assert forall|d: u32| ids@.contains(d) <==> matched(lv, d, (q + 1) as nat) by {
                if matched(lv, d, q as nat) {
                    let w = choose|w: int| 0 <= w < q && #[trigger] document_ids(lv[w]).contains(d);
                    assert(0 <= w < q + 1 && document_ids(lv[w]).contains(d));
                }
                if all.contains(d) {
                    assert(0 <= q < q + 1 && document_ids(lv[q as int]).contains(d));
                }
                if matched(lv, d, (q + 1) as nat) {
                    let w = choose|w: int|
                        0 <= w < q + 1 && #[trigger] document_ids(lv[w]).contains(d);
                    if w < q {
                        assert(0 <= w < q && document_ids(lv[w]).contains(d));
                    }
                }
            }
        }
        q += 1;
    }
    ids
}

/// What a query finds in each document that holds one of its tokens,
/// given the postings of each query token, in query order. The matches
/// are in ascending order of document id.
pub fn match_documents(lists: &Vec<PostingsList>) -> (matches: Vec<DocumentMatch>)
    requires
        matchable(lists_view(lists@)),
    ensures
        are_matches(lists_view(lists@), matches@),
{
    let ghost lv = lists_view(lists@);
    let ids = matched_ids(lists);
    let mut matches: Vec<DocumentMatch> = Vec::new();
    let mut i: usize = 0;
    while i < ids.len()
        invariant
            i <= ids.len(),
            lv == lists_view(lists@),
            matchable(lv),
            matches@.len() == i,
            strictly_ascending(ids@),
            forall|k: int| 0 <= k < i ==> (#[trigger] matches@[k]).document_id == ids@[k],
            forall|k: int| 0 <= k < i ==> is_match(lv, ids@[k], #[trigger] matches@[k]),
        decreases ids.len() - i,
    {
        let d: u32 = ids[i];
        let (hits, pairs) = gather(lists, d);
        let sorted = sort_pairs(&pairs);
        proof {
            assert forall|k: int| 0 <= k < sorted@.len() implies (#[trigger] sorted@[k]).1
                < lists@.len() && sorted@[k].0 < u32::MAX by {
                let x = sorted@[k];
                sorted@.to_multiset_ensures();
                pairs@.to_multiset_ensures();
                assert(sorted@.contains(x));
                assert(sorted@.to_multiset().count(x) > 0);
                assert(pairs@.to_multiset().count(x) > 0);
                assert(pairs@.contains(x));
                let w = choose|w: int| 0 <= w < pairs@.len() && pairs@[w] == x;
                assert(pairs@[w].1 < lists@.len());
            }
            assert(by_position(sorted@)) by {
                assert forall|a: int, b: int| 0 <= a < b < sorted@.len() implies sorted@[a].0
                    <= sorted@[b].0 by {
                    assert(pair_le(sorted@[a], sorted@[b]));
                }
            }
        }
        let window: u32 = proximity_window(&sorted, lists.len());
        let m = DocumentMatch { document_id: d, hits, window };
        proof {
            assert(is_sorted_of(occurrences_of(lv, d, lv.len()), sorted@));
            assert(is_match(lv, d, m));
        }
        let ghost before = matches@;
        matches.push(m);
        proof {
            assert forall|k: int| 0 <= k < i + 1 implies is_match(
                lv,
                ids@[k],
                #[trigger] matches@[k],
            ) by {
                if k < i {
                    assert(matches@[k] == before[k]);
                }
            }
            assert forall|k: int| 0 <= k < i + 1 implies (#[trigger] matches@[k]).document_id
                == ids@[k] by {
                if k < i {
                    assert(matches@[k] == before[k]);
                }
            }
        }
        i += 1;
    }
    proof {
        assert forall|d: u32|
            matched(lv, d, lists@.len()) <==> exists|k: int|
                0 <= k < matches@.len() && (#[trigger] matches@[k]).document_id == d by {
            if matched(lv, d, lists@.len()) {
                assert(ids@.contains(d));
                let k = choose|k: int| 0 <= k < ids@.len() && ids@[k] == d;
                assert(matches@[k].document_id == d);
            }
            if exists|k: int| 0 <= k < matches@.len() && (#[trigger] matches@[k]).document_id == d {
                let k = choose|k: int|
                    0 <= k < matches@.len() && (#[trigger] matches@[k]).document_id == d;
                assert(ids@[k] == d);
                assert(ids@.contains(d));
            }
        }
    }
    matches
}

} // verus!
