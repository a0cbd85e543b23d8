//! The top-k selector: of all entries pushed, it keeps the `k` with the
//! highest priorities.
//!
//! Priorities are integers. A caller that ranks by another kind of score
//! maps it to integers in a way that keeps the order.
use vstd::prelude::*;
use vstd::seq_lib::{to_multiset_build, to_multiset_insert};

verus! {

broadcast use vstd::multiset::group_multiset_axioms;

/// An entry of the selector.
#[derive(Debug, Clone, Copy, PartialEq, Eq, Structural)]
pub struct Entry {
    pub id: u32,
    pub priority: u64,
}

/// Priorities never rise along the sequence.
pub open spec fn descending(s: Seq<Entry>) -> bool {
    forall|i: int, j: int| 0 <= i < j < s.len() ==> s[i].priority >= s[j].priority
}

/// The number of leading entries of `s` whose priority is at least `p`.
pub open spec fn rank_of(s: Seq<Entry>, p: u64) -> nat
    decreases s.len(),
{
    if s.len() > 0 && s[0].priority >= p {
        1 + rank_of(s.drop_first(), p)
    } else {
        0
    }
}

/// `e` put into the descending sequence `s`, behind the entries that have
/// at least its priority.
pub open spec fn insert_desc(s: Seq<Entry>, e: Entry) -> Seq<Entry> {
    s.insert(rank_of(s, e.priority) as int, e)
}

/// What a selector of capacity `k` holds after the entries of `pushed`
/// were pushed in order: each one is put in its place, and the last entry
/// is dropped where there are more than `k`.
pub open spec fn selected(pushed: Seq<Entry>, k: nat) -> Seq<Entry>
    decreases pushed.len(),
{
    if pushed.len() == 0 {
        Seq::empty()
    } else {
        let t = insert_desc(selected(pushed.drop_last(), k), pushed.last());
        if t.len() > k {
            t.drop_last()
        } else {
            t
        }
    }
}

/// The entries that the selector dropped, in the order in which it did.
pub open spec fn rejected(pushed: Seq<Entry>, k: nat) -> Seq<Entry>
    decreases pushed.len(),
{
    if pushed.len() == 0 {
        Seq::empty()
    } else {
        let t = insert_desc(selected(pushed.drop_last(), k), pushed.last());
        if t.len() > k {
            rejected(pushed.drop_last(), k).push(t.last())
        } else {
            rejected(pushed.drop_last(), k)
        }
    }
}

pub proof fn lemma_rank_of(s: Seq<Entry>, p: u64)
    requires
        descending(s),
    ensures
        rank_of(s, p) <= s.len(),
        forall|i: int| 0 <= i < rank_of(s, p) ==> s[i].priority >= p,
        forall|i: int| rank_of(s, p) <= i < s.len() ==> s[i].priority < p,
    decreases s.len(),
{
    if s.len() > 0 && s[0].priority >= p {
        let t = s.drop_first();
        assert(descending(t)) by {
            assert forall|i: int, j: int| 0 <= i < j < t.len() implies t[i].priority
                >= t[j].priority by {
                assert(t[i] == s[i + 1] && t[j] == s[j + 1]);
            }
        }
        lemma_rank_of(t, p);
        assert forall|i: int| 0 <= i < rank_of(s, p) implies s[i].priority >= p by {
            if i > 0 {
                assert(s[i] == t[i - 1]);
            }
        }
        assert forall|i: int| rank_of(s, p) <= i < s.len() implies s[i].priority < p by {
            assert(s[i] == t[i - 1]);
        }
    } else if s.len() > 0 {
        assert forall|i: int| 0 <= i < s.len() implies s[i].priority < p by {
            if i > 0 {
                assert(s[0].priority >= s[i].priority);
            }
        }
    }
}

pub proof fn lemma_insert_desc(s: Seq<Entry>, e: Entry)
    requires
        descending(s),
    ensures
        descending(insert_desc(s, e)),
        insert_desc(s, e).len() == s.len() + 1,
        insert_desc(s, e).to_multiset() == s.to_multiset().insert(e),
        forall|i: int|
            0 <= i < insert_desc(s, e).len() ==> #[trigger] insert_desc(s, e)[i] == e || s.contains(
                insert_desc(s, e)[i],
            ),
{
    lemma_rank_of(s, e.priority);
    let r = rank_of(s, e.priority) as int;
    let t = insert_desc(s, e);
    to_multiset_insert(s, r, e);
    assert forall|i: int| 0 <= i < t.len() implies #[trigger] t[i] == (if i < r {
        s[i]
    } else if i == r {
        e
    } else {
        s[i - 1]
    }) by {}
    assert forall|i: int, j: int| 0 <= i < j < t.len() implies t[i].priority >= t[j].priority by {
        assert(t[i] == (if i < r { s[i] } else if i == r { e } else { s[i - 1] }));
        assert(t[j] == (if j < r { s[j] } else if j == r { e } else { s[j - 1] }));
    }
    assert forall|i: int| 0 <= i < t.len() implies #[trigger] t[i] == e || s.contains(t[i]) by {
        assert(t[i] == (if i < r { s[i] } else if i == r { e } else { s[i - 1] }));
    }
}

/// The selector is right: it holds at most `k` entries, in descending
/// order of priority; together with those it dropped they are the entries
/// pushed, each as often as it was pushed; and none that it dropped has a
/// higher priority than any that it holds.
pub proof fn lemma_selected_is_top_k(pushed: Seq<Entry>, k: nat)
    ensures
        selected(pushed, k).len() == (if pushed.len() <= k {
            pushed.len()
        } else {
            k
        }),
        descending(selected(pushed, k)),
        pushed.to_multiset() == selected(pushed, k).to_multiset().add(
            rejected(pushed, k).to_multiset(),
        ),
        forall|i: int, j: int|
            0 <= i < rejected(pushed, k).len() && 0 <= j < selected(pushed, k).len() ==> (
            #[trigger] rejected(pushed, k)[i]).priority <= (#[trigger] selected(
                pushed,
                k,
            )[j]).priority,
        rejected(pushed, k).len() + selected(pushed, k).len() == pushed.len(),
    decreases pushed.len(),
{
    let sel = selected(pushed, k);
    let rej = rejected(pushed, k);
    if pushed.len() == 0 {
        assert(pushed.to_multiset() =~= sel.to_multiset().add(rej.to_multiset())) by {
            pushed.to_multiset_ensures();
            assert(pushed =~= sel);
        }
    } else {
        let before = pushed.drop_last();
        let e = pushed.last();
        let sel0 = selected(before, k);
        let rej0 = rejected(before, k);
        lemma_selected_is_top_k(before, k);
        lemma_insert_desc(sel0, e);
        let t = insert_desc(sel0, e);
        assert(pushed =~= before.push(e));
        to_multiset_build(before, e);
        if t.len() > k {
            let last = t.last();
            assert(t =~= sel.push(last));
            to_multiset_build(sel, last);
            to_multiset_build(rej0, last);
            let m_sel0 = sel0.to_multiset();
            let m_rej0 = rej0.to_multiset();
            let m_sel = sel.to_multiset();
            assert(before.to_multiset() == m_sel0.add(m_rej0));
            assert(pushed.to_multiset() == m_sel0.add(m_rej0).insert(e));
            assert(t.to_multiset() == m_sel0.insert(e));
            assert(t.to_multiset() == m_sel.insert(last));
            assert(rej.to_multiset() == m_rej0.insert(last));
            assert(m_sel0.add(m_rej0).insert(e) =~= m_sel0.insert(e).add(m_rej0));
            assert(m_sel.insert(last).add(m_rej0) =~= m_sel.add(m_rej0.insert(last)));
            assert(pushed.to_multiset() =~= sel.to_multiset().add(rej.to_multiset()));
            assert(descending(sel)) by {
                assert forall|i: int, j: int| 0 <= i < j < sel.len() implies sel[i].priority
                    >= sel[j].priority by {
                    assert(sel[i] == t[i] && sel[j] == t[j]);
                }
            }
            assert forall|i: int, j: int|
                0 <= i < rej.len() && 0 <= j < sel.len() implies (#[trigger] rej[i]).priority <= (
            #[trigger] sel[j]).priority by {
                assert(sel[j] == t[j]);
                assert(t[j].priority >= t[t.len() - 1].priority);
                if i < rej0.len() {
                    assert(rej[i] == rej0[i]);
                    let r = rank_of(sel0, e.priority) as int;
                    lemma_rank_of(sel0, e.priority);
                    if j < r {
                        assert(t[j] == sel0[j]);
                    } else if j > r {
                        assert(t[j] == sel0[j - 1]);
                    } else {
                        // `e` is held, so an entry held before stands behind it
                        assert(t[j + 1] == sel0[j]);
                        assert(t[j].priority >= t[j + 1].priority);
                        assert(rej0[i].priority <= sel0[j].priority);
                    }
                }
            }
        } else {
            assert(rej0.len() == 0) by {
                if rej0.len() > 0 {
                    assert(rej0.len() + sel0.len() == before.len());
                    assert(sel0.len() == k);
                }
            }
            assert(pushed.to_multiset() =~= sel.to_multiset().add(rej.to_multiset()));
        }
    }
}

/// A selector of bounded capacity.
pub struct FixedMinHeap {
    heap: Vec<Entry>,
    capacity: usize,
    pushed: Ghost<Seq<Entry>>,
}

impl FixedMinHeap {
    /// The selector holds what `selected` says.
    pub closed spec fn wf(&self) -> bool {
        self.heap@ == selected(self.pushed@, self.capacity as nat)
    }

    /// All entries pushed so far, in order.
    pub closed spec fn pushed(&self) -> Seq<Entry> {
        self.pushed@
    }

    /// The number of entries that the selector keeps.
    pub closed spec fn capacity(&self) -> nat {
        self.capacity as nat
    }

    /// An empty selector that keeps `capacity` entries.
    pub fn new(capacity: usize) -> (h: FixedMinHeap)
        ensures
            h.wf(),
            h.capacity() == capacity,
            h.pushed() == Seq::<Entry>::empty(),
    {
        FixedMinHeap { heap: Vec::new(), capacity, pushed: Ghost(Seq::empty()) }
    }

    /// Pushes an entry; drops the entry of lowest priority if there are
    /// more than the capacity.
    pub fn push(&mut self, id: u32, score: u64)
        requires
            old(self).wf(),
        ensures
            final(self).wf(),
            final(self).capacity() == old(self).capacity(),
            final(self).pushed() == old(self).pushed().push(Entry { id, priority: score }),
    {
        let entry = Entry { id, priority: score };
        let ghost held = self.heap@;
        proof {
            lemma_selected_is_top_k(self.pushed@, self.capacity as nat);
            assert(held.skip(0) =~= held);
        }
        let mut at: usize = 0;
        while at < self.heap.len() && self.heap[at].priority >= score
            invariant
                at <= self.heap.len(),
                self.heap@ == held,
                rank_of(held, score) == at + rank_of(held.skip(at as int), score),
            decreases self.heap.len() - at,
        {
            proof {
                assert(held.skip(at as int).drop_first() =~= held.skip(at + 1));
            }
            at += 1;
        }
        self.heap.insert(at, entry);
        if self.heap.len() > self.capacity {
            self.heap.pop();
        }
        proof {
            let before = self.pushed@;
            self.pushed = Ghost(before.push(entry));
            assert(before.push(entry).drop_last() =~= before);
        }
    }

    /// Takes the entries out, highest priority first, as pairs of id and
    /// priority. The selector is empty afterwards.
    pub fn get_sorted_id_priority_pairs(&mut self) -> (res: Vec<(u32, u64)>)
        requires
            old(self).wf(),
        ensures
            final(self).wf(),
            final(self).capacity() == old(self).capacity(),
            final(self).pushed() == Seq::<Entry>::empty(),
            res@ == selected(old(self).pushed(), old(self).capacity()).map_values(
                |e: Entry| (e.id, e.priority),
            ),
            res@.len() <= old(self).capacity(),
            forall|i: int, j: int| 0 <= i < j < res@.len() ==> res@[i].1 >= res@[j].1,
    {
        let ghost held = self.heap@;
        proof {
            lemma_selected_is_top_k(self.pushed@, self.capacity as nat);
        }
        let mut res: Vec<(u32, u64)> = Vec::new();
        let mut i: usize = 0;
        while i < self.heap.len()
            invariant
                i <= self.heap.len(),
                self.heap@ == held,
                res@ == held.take(i as int).map_values(|e: Entry| (e.id, e.priority)),
            decreases self.heap.len() - i,
        {
            let e = self.heap[i];
            proof {
                assert(held.take(i + 1).map_values(|e: Entry| (e.id, e.priority)) =~= held.take(
                    i as int,
                ).map_values(|e: Entry| (e.id, e.priority)).push((e.id, e.priority)));
            }
            res.push((e.id, e.priority));
            i += 1;
        }
        proof {
            assert(held.take(i as int) =~= held);
        }
        self.heap = Vec::new();
        self.pushed = Ghost(Seq::empty());
        res
    }
}

} // verus!
