//! Helpers on strings, by characters.
use vstd::prelude::*;
use vstd::string::{group_string_axioms, StrSliceExecFns, StringExecFns};
use vstd::std_specs::iter::IteratorSpec;

verus! {

broadcast use group_string_axioms;

/// `n` is the length of the longest common prefix of `a` and `b`.
pub open spec fn is_matching_prefix_len(a: Seq<char>, b: Seq<char>, n: nat) -> bool {
    &&& n <= a.len()
    &&& n <= b.len()
    &&& a.take(n as int) == b.take(n as int)
    &&& (n == a.len() || n == b.len() || a[n as int] != b[n as int])
}

/// The length of the longest common prefix of `a` and `b`.
pub open spec fn matching_prefix_len(a: Seq<char>, b: Seq<char>) -> nat
    decreases a.len(),
{
    if a.len() > 0 && b.len() > 0 && a[0] == b[0] {
        1 + matching_prefix_len(a.drop_first(), b.drop_first())
    } else {
        0
    }
}

pub proof fn lemma_matching_prefix_len(a: Seq<char>, b: Seq<char>)
    ensures
        is_matching_prefix_len(a, b, matching_prefix_len(a, b)),
    decreases a.len(),
{
    if a.len() > 0 && b.len() > 0 && a[0] == b[0] {
        let ta = a.drop_first();
        let tb = b.drop_first();
        lemma_matching_prefix_len(ta, tb);
        let n = matching_prefix_len(ta, tb);
        assert(a.take((n + 1) as int) =~= seq![a[0]] + ta.take(n as int));
        assert(b.take((n + 1) as int) =~= seq![b[0]] + tb.take(n as int));
    } else {
        assert(a.take(0) =~= b.take(0));
    }
}

/// `String::push`: the string with the character behind it.
#[verifier::external_body]
pub(crate) fn push_char(s: &mut String, c: char)
    ensures
        final(s)@ == old(s)@.push(c),
{
    s.push(c);
}

/// The characters of a string.
pub fn chars_of(s: &str) -> (v: Vec<char>)
    ensures
        v@ == s@,
{
    let mut v: Vec<char> = Vec::new();
    let mut it = s.chars();
    loop
        invariant
            v@ + it.remaining() == s@,
            it.obeys_prophetic_iter_laws(),
            it.decrease() is Some,
        decreases it.decrease()->0,
    {
        match it.next() {
            Some(c) => {
                proof {
                    assert(v@.push(c) + it.remaining() =~= v@ + seq![c] + it.remaining());
                }
                v.push(c);
            },
            None => {
                proof {
                    assert(v@ + Seq::<char>::empty() =~= v@);
                }
                return v;
            },
        }
    }
}

/// The number of leading characters that two strings share.
pub fn get_matching_prefix_len(s1: &str, s2: &str) -> (n: usize)
    ensures
        n == matching_prefix_len(s1@, s2@),
        is_matching_prefix_len(s1@, s2@, n as nat),
{
    proof {
        lemma_matching_prefix_len(s1@, s2@);
    }
    let a = chars_of(s1);
    let b = chars_of(s2);
    let mut n: usize = 0;
    while n < a.len() && n < b.len() && a[n] == b[n]
        invariant
            n <= a.len(),
            n <= b.len(),
            a@.take(n as int) == b@.take(n as int),
        decreases a.len() - n,
    {
        proof {
            assert(a@.take(n + 1) =~= a@.take(n as int).push(a@[n as int]));
            assert(b@.take(n + 1) =~= b@.take(n as int).push(b@[n as int]));
        }
        n += 1;
    }
    proof {
        lemma_matching_prefix_len_unique(s1@, s2@, n as nat, matching_prefix_len(s1@, s2@));
    }
    n
}

/// The matching prefix length is unique.
pub proof fn lemma_matching_prefix_len_unique(a: Seq<char>, b: Seq<char>, n: nat, m: nat)
    requires
        is_matching_prefix_len(a, b, n),
        is_matching_prefix_len(a, b, m),
    ensures
        n == m,
{
    if n < m {
        assert(a.take(m as int)[n as int] == b.take(m as int)[n as int]);
    } else if m < n {
        assert(a.take(n as int)[m as int] == b.take(n as int)[m as int]);
    }
}

} // verus!
