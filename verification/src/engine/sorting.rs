//! Sorting the places of terms by the terms that stand there.
use vstd::prelude::*;
use vstd::seq_lib::{to_multiset_build, lemma_multiset_commutative};
use crate::engine::terms::{term_lt, terms_view, term_less, lemma_term_order};

verus! {

broadcast use vstd::multiset::group_multiset_axioms;

/// `a` comes before `b`, or is `b`.
pub open spec fn term_le(a: Seq<char>, b: Seq<char>) -> bool {
    !term_lt(b, a)
}

/// Every place is one of the places of `terms`.
pub open spec fn places_of(terms: Seq<Seq<char>>, v: Seq<usize>) -> bool {
    forall|i: int| 0 <= i < v.len() ==> (#[trigger] v[i]) < terms.len()
}

/// The terms at the places never descend along the sequence.
pub open spec fn sorted_places(terms: Seq<Seq<char>>, v: Seq<usize>) -> bool {
    forall|i: int, j: int|
        0 <= i < j < v.len() ==> term_le(terms[v[i] as int], terms[v[j] as int])
}

pub proof fn lemma_term_le(a: Seq<char>, b: Seq<char>, c: Seq<char>)
    ensures
        term_le(a, a),
        term_le(a, b) || term_le(b, a),
        term_le(a, b) && term_le(b, c) ==> term_le(a, c),
        term_le(a, b) && a != b ==> term_lt(a, b),
{
    lemma_term_order(a, b, c);
    lemma_term_order(b, a, c);
    lemma_term_order(c, b, a);
    lemma_term_order(c, a, b);
    lemma_term_order(a, c, b);
    lemma_term_order(b, c, a);
}

/// Merges two sorted sequences of places into one.
fn merge(terms: &Vec<String>, a: &Vec<usize>, b: &Vec<usize>) -> (out: Vec<usize>)
    requires
        places_of(terms_view(terms@), a@),
        places_of(terms_view(terms@), b@),
        sorted_places(terms_view(terms@), a@),
        sorted_places(terms_view(terms@), b@),
    ensures
        places_of(terms_view(terms@), out@),
        sorted_places(terms_view(terms@), out@),
        out@.to_multiset() == a@.to_multiset().add(b@.to_multiset()),
{
    let ghost tv = terms_view(terms@);
    let mut out: Vec<usize> = Vec::new();
    let mut i: usize = 0;
    let mut j: usize = 0;
    proof {
        assert(a@.take(0) =~= Seq::empty());
        assert(b@.take(0) =~= Seq::empty());
        assert(out@ =~= Seq::empty());
        out@.to_multiset_ensures();
        vstd::multiset::lemma_multiset_empty_len(out@.to_multiset());
        assert(out@.to_multiset() =~= a@.take(0).to_multiset().add(b@.take(0).to_multiset()));
    }
    while i < a.len() || j < b.len()
        invariant
            i <= a.len(),
            j <= b.len(),
            tv == terms_view(terms@),
            places_of(tv, a@),
            places_of(tv, b@),
            sorted_places(tv, a@),
            sorted_places(tv, b@),
            places_of(tv, out@),
            sorted_places(tv, out@),
            out@.to_multiset() == a@.take(i as int).to_multiset().add(
                b@.take(j as int).to_multiset(),
            ),
            forall|k: int|
                0 <= k < out@.len() ==> (i < a@.len() ==> term_le(
                    tv[#[trigger] out@[k] as int],
                    tv[a@[i as int] as int],
                )) && (j < b@.len() ==> term_le(tv[out@[k] as int], tv[b@[j as int] as int])),
        decreases a.len() - i + b.len() - j,
    {
        let ghost before = out@;
        let from_a: bool = if j >= b.len() {
            true
        } else if i >= a.len() {
            false
        } else {
            proof {
                assert(tv[a@[i as int] as int] == terms@[a@[i as int] as int]@);
                assert(tv[b@[j as int] as int] == terms@[b@[j as int] as int]@);
            }
            !term_less(terms[b[j]].as_str(), terms[a[i]].as_str())
        };
        let x: usize = if from_a {
            a[i]
        } else {
            b[j]
        };
        out.push(x);
        proof {
            to_multiset_build(before, x);
            if from_a {
                to_multiset_build(a@.take(i as int), x);
                assert(a@.take(i + 1) =~= a@.take(i as int).push(x));
            } else {
                to_multiset_build(b@.take(j as int), x);
                assert(b@.take(j + 1) =~= b@.take(j as int).push(x));
            }
            let ni = if from_a { i + 1 } else { i as int };
            let nj = if from_a { j as int } else { j + 1 };
            assert(out@.to_multiset() =~= a@.take(ni).to_multiset().add(
                b@.take(nj).to_multiset(),
            ));
            assert forall|p: int, q: int| 0 <= p < q < out@.len() implies term_le(
                tv[out@[p] as int],
                tv[out@[q] as int],
            ) by {
                if q < before.len() {
                    assert(out@[p] == before[p] && out@[q] == before[q]);
                } else {
                    assert(out@[p] == before[p]);
                }
            }
            assert forall|k: int| 0 <= k < out@.len() implies (ni < a@.len() ==> term_le(
                tv[#[trigger] out@[k] as int],
                tv[a@[ni] as int],
            )) && (nj < b@.len() ==> term_le(tv[out@[k] as int], tv[b@[nj] as int])) by {
                let y = tv[out@[k] as int];
                let xa = tv[x as int];
                if k < before.len() {
                    assert(out@[k] == before[k]);
                }
                lemma_term_le(y, xa, xa);
                if ni < a@.len() {
                    let za = tv[a@[ni] as int];
                    lemma_term_le(y, xa, za);
                    if !from_a {
                        // x is b[j] and comes before a[i]
                        lemma_term_le(xa, za, za);
                    }
                }
                if nj < b@.len() {
                    let zb = tv[b@[nj] as int];
                    lemma_term_le(y, xa, zb);
                    if from_a && j < b@.len() {
                        lemma_term_le(xa, zb, zb);
                    }
                }
            }
        }
        if from_a {
            i += 1;
        } else {
            j += 1;
        }
    }
    proof {
        assert(a@.take(i as int) =~= a@);
        assert(b@.take(j as int) =~= b@);
    }
    out
}

/// The places from `from` up to `to`.
fn slice(v: &Vec<usize>, from: usize, to: usize) -> (out: Vec<usize>)
    requires
        from <= to <= v@.len(),
    ensures
        out@ == v@.subrange(from as int, to as int),
{
    let mut out: Vec<usize> = Vec::new();
    let mut i: usize = from;
    while i < to
        invariant
            from <= i <= to,
            to <= v@.len(),
            out@ == v@.subrange(from as int, i as int),
        decreases to - i,
    {
        out.push(v[i]);
        proof {
            assert(v@.subrange(from as int, i + 1) =~= v@.subrange(from as int, i as int).push(
                v@[i as int],
            ));
        }
        i += 1;
    }
    out
}

/// Sorts places by the terms that stand there.
pub fn sort_places(terms: &Vec<String>, v: Vec<usize>) -> (out: Vec<usize>)
    requires
        places_of(terms_view(terms@), v@),
    ensures
        places_of(terms_view(terms@), out@),
        sorted_places(terms_view(terms@), out@),
        out@.to_multiset() == v@.to_multiset(),
    decreases v@.len(),
{
    if v.len() <= 1 {
        return v;
    }
    let mid: usize = v.len() / 2;
    let left = slice(&v, 0, mid);
    let right = slice(&v, mid, v.len());
    proof {
        assert(v@ =~= left@ + right@);
        lemma_multiset_commutative(left@, right@);
    }
    let left = sort_places(terms, left);
    let right = sort_places(terms, right);
    merge(terms, &left, &right)
}

} // verus!
