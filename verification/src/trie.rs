//! A trie: a map from words to values that can list the values of all
//! words with a given prefix.
use vstd::prelude::*;
use crate::engine::utils::chars_of;

verus! {

/// A labelled edge to a child node.
pub struct Edge<T> {
    label: char,
    node: Node<T>,
}

/// A node: the value of the word that ends here, and the children.
pub struct Node<T> {
    value: Option<T>,
    children: Vec<Edge<T>>,
}

/// A map from words to values.
pub struct Trie<T> where T: Default + Clone + Copy {
    root: Node<T>,
}

/// Child `i` is the first one with the label `c`.
pub closed spec fn is_first<T>(children: Seq<Edge<T>>, c: char, i: int) -> bool {
    &&& 0 <= i < children.len()
    &&& children[i].label == c
    &&& forall|j: int| 0 <= j < i ==> children[j].label != c
}

/// The first child with the label `c`, if there is one.
pub closed spec fn first_child<T>(children: Seq<Edge<T>>, c: char) -> Option<int> {
    if exists|i: int| is_first(children, c, i) {
        Some(choose|i: int| is_first(children, c, i))
    } else {
        None
    }
}

/// The value that the subtree of `node` holds for `word`.
pub closed spec fn node_get<T>(node: Node<T>, word: Seq<char>) -> Option<T>
    decreases word.len(),
{
    if word.len() == 0 {
        node.value
    } else {
        match first_child(node.children@, word[0]) {
            Some(i) => node_get(node.children@[i].node, word.drop_first()),
            None => None,
        }
    }
}

proof fn lemma_first_child<T>(children: Seq<Edge<T>>, c: char, i: int)
    requires
        is_first(children, c, i),
    ensures
        first_child(children, c) == Some(i),
{
    let k = choose|k: int| is_first(children, c, k);
    assert(k == i) by {
        if k < i {
            assert(children[k].label != c);
        } else if i < k {
            assert(children[i].label != c);
        }
    }
}

proof fn lemma_no_child<T>(children: Seq<Edge<T>>, c: char)
    requires
        forall|j: int| 0 <= j < children.len() ==> children[j].label != c,
    ensures
        first_child(children, c) is None,
{
}

/// A child that is found is the first with its label.
proof fn lemma_first_child_is_first<T>(children: Seq<Edge<T>>, c: char)
    ensures
        match first_child(children, c) {
            Some(i) => is_first(children, c, i),
            None => forall|j: int| 0 <= j < children.len() ==> children[j].label != c,
        },
{
    if first_child(children, c) is None {
        assert forall|j: int| 0 <= j < children.len() implies children[j].label != c by {
            if children[j].label == c {
                lemma_some_first(children, c, j);
            }
        }
    }
}

proof fn lemma_some_first<T>(children: Seq<Edge<T>>, c: char, j: int)
    requires
        0 <= j < children.len(),
        children[j].label == c,
    ensures
        exists|i: int| is_first(children, c, i),
    decreases j,
{
    if forall|k: int| 0 <= k < j ==> children[k].label != c {
        assert(is_first(children, c, j));
    } else {
        let k = choose|k: int| 0 <= k < j && children[k].label == c;
        lemma_some_first(children, c, k);
    }
}

/// The index of the first child with the label `c`.
fn find_child<T>(children: &Vec<Edge<T>>, c: char) -> (r: Option<usize>)
    ensures
        match r {
            Some(i) => first_child(children@, c) == Some(i as int) && i < children@.len(),
            None => first_child(children@, c) is None,
        },
{
    let mut i: usize = 0;
    while i < children.len()
        invariant
            i <= children.len(),
            forall|j: int| 0 <= j < i ==> children@[j].label != c,
        decreases children.len() - i,
    {
        if children[i].label == c {
            proof {
                lemma_first_child(children@, c, i as int);
            }
            return Some(i);
        }
        i += 1;
    }
    proof {
        lemma_no_child(children@, c);
    }
    None
}

/// A node without value and children holds nothing.
proof fn lemma_empty_node<T>(node: Node<T>, w: Seq<char>)
    requires
        node.value is None,
        node.children@.len() == 0,
    ensures
        node_get(node, w) is None,
{
    if w.len() > 0 {
        lemma_no_child(node.children@, w[0]);
    }
}

/// A new child that holds nothing changes nothing.
proof fn lemma_child_added<T>(before: Node<T>, after: Node<T>, c: char)
    requires
        first_child(before.children@, c) is None,
        after.value == before.value,
        after.children@.len() == before.children@.len() + 1,
        forall|j: int| 0 <= j < before.children@.len() ==> after.children@[j] == before.children@[j],
        after.children@[before.children@.len() as int].label == c,
        after.children@[before.children@.len() as int].node.value is None,
        after.children@[before.children@.len() as int].node.children@.len() == 0,
    ensures
        is_first(after.children@, c, before.children@.len() as int),
        forall|w: Seq<char>| #[trigger] node_get(after, w) == node_get(before, w),
{
    let n = before.children@.len() as int;
    lemma_first_child_is_first(before.children@, c);
    assert(is_first(after.children@, c, n)) by {
        assert forall|j: int| 0 <= j < n implies after.children@[j].label != c by {
            assert(after.children@[j] == before.children@[j]);
        }
    }
    assert forall|w: Seq<char>| #[trigger] node_get(after, w) == node_get(before, w) by {
        if w.len() > 0 {
            let d = w[0];
            lemma_first_child_is_first(before.children@, d);
            match first_child(before.children@, d) {
                Some(k) => {
                    assert(is_first(after.children@, d, k)) by {
                        assert(after.children@[k] == before.children@[k]);
                        assert forall|j: int| 0 <= j < k implies after.children@[j].label != d by {
                            assert(after.children@[j] == before.children@[j]);
                        }
                    }
                    lemma_first_child(after.children@, d, k);
                    assert(after.children@[k] == before.children@[k]);
                },
                None => {
                    if d == c {
                        lemma_first_child(after.children@, c, n);
                        lemma_empty_node(after.children@[n].node, w.drop_first());
                    } else {
                        assert forall|j: int| 0 <= j < after.children@.len() implies after.children@[j].label
                            != d by {
                            if j < n {
                                assert(after.children@[j] == before.children@[j]);
                            }
                        }
                        lemma_no_child(after.children@, d);
                    }
                },
            }
        }
    }
}

/// Setting a value below child `at` sets the value of the word that
/// leads there, and no other.
proof fn lemma_child_updated<T>(
    before: Node<T>,
    after: Node<T>,
    at: int,
    c: char,
    rest: Seq<char>,
    value: T,
)
    requires
        is_first(before.children@, c, at),
        after.value == before.value,
        after.children@.len() == before.children@.len(),
        forall|j: int|
            0 <= j < before.children@.len() && j != at ==> after.children@[j]
                == before.children@[j],
        after.children@[at].label == c,
        forall|w: Seq<char>|
            #[trigger] node_get(after.children@[at].node, w) == (if w == rest {
                Some(value)
            } else {
                node_get(before.children@[at].node, w)
            }),
    ensures
        forall|w: Seq<char>|
            #[trigger] node_get(after, w) == (if w == seq![c] + rest {
                Some(value)
            } else {
                node_get(before, w)
            }),
{
    let target = seq![c] + rest;
    assert(target[0] == c);
    assert(target.drop_first() =~= rest);
    lemma_first_child(before.children@, c, at);
    assert forall|w: Seq<char>|
        #[trigger] node_get(after, w) == (if w == target {
            Some(value)
        } else {
            node_get(before, w)
        }) by {
        if w.len() > 0 {
            let d = w[0];
            let tail = w.drop_first();
            lemma_first_child_is_first(before.children@, d);
            match first_child(before.children@, d) {
                Some(k) => {
                    assert(is_first(after.children@, d, k)) by {
                        assert forall|j: int| 0 <= j < k implies after.children@[j].label != d by {
                            if j != at {
                                assert(after.children@[j] == before.children@[j]);
                            }
                        }
                        if k != at {
                            assert(after.children@[k] == before.children@[k]);
                        }
                    }
                    lemma_first_child(after.children@, d, k);
                    assert(node_get(after, w) == node_get(after.children@[k].node, tail));
                    assert(node_get(before, w) == node_get(before.children@[k].node, tail));
                    if d == c {
                        assert(k == at);
                        if tail == rest {
                            assert(w =~= seq![c] + tail);
                            assert(w == target);
                        } else {
                            assert(w != target);
                        }
                    } else {
                        assert(k != at);
                        assert(after.children@[k] == before.children@[k]);
                        assert(w != target);
                    }
                },
                None => {
                    assert(d != c);
                    assert forall|j: int| 0 <= j < after.children@.len() implies after.children@[j].label
                        != d by {
                        if j != at {
                            assert(after.children@[j] == before.children@[j]);
                        }
                    }
                    lemma_no_child(after.children@, d);
                    assert(node_get(after, w) is None);
                    assert(node_get(before, w) is None);
                    assert(w != target);
                },
            }
        } else {
            assert(target.len() > 0);
            assert(node_get(after, w) == after.value);
            assert(node_get(before, w) == before.value);
        }
    }
}

/// The index of the first child with the label `c`, which is added if
/// there is none.
fn ensure_child<T>(node: &mut Node<T>, c: char) -> (at: usize)
    ensures
        is_first(final(node).children@, c, at as int),
        forall|w: Seq<char>| #[trigger] node_get(*final(node), w) == node_get(*old(node), w),
{
    let found: Option<usize> = find_child(&node.children, c);
    if found.is_some() {
        proof {
            lemma_first_child_is_first(node.children@, c);
        }
        found.unwrap()
    } else {
        let at: usize = node.children.len();
        node.children.push(Edge { label: c, node: Node { value: None, children: Vec::new() } });
        proof {
            lemma_child_added(*old(node), *node, c);
        }
        at
    }
}

/// Sets the value of the word made of the characters of `word` from `i` on.
fn insert_at<T: Copy>(node: &mut Node<T>, word: &Vec<char>, i: usize, value: T)
    requires
        i <= word@.len(),
    ensures
        forall|w: Seq<char>|
            #[trigger] node_get(*final(node), w) == (if w == word@.skip(i as int) {
                Some(value)
            } else {
                node_get(*old(node), w)
            }),
    decreases word@.len() - i,
{
    let ghost before = *node;
    if i == word.len() {
        node.value = Some(value);
        proof {
            assert(word@.skip(i as int) =~= Seq::empty());
            assert forall|w: Seq<char>| #[trigger]
                node_get(*node, w) == (if w == word@.skip(i as int) {
                    Some(value)
                } else {
                    node_get(before, w)
                }) by {
                if w.len() == 0 {
                    assert(w =~= Seq::empty());
                }
            }
        }
    } else {
        let c: char = word[i];
        let at: usize = ensure_child(node, c);
        let ghost grown = *node;
        let child = &mut node.children[at];
        insert_at(&mut child.node, word, i + 1, value);
        proof {
            let target = word@.skip(i as int);
            assert(target =~= seq![c] + word@.skip(i + 1));
            lemma_child_updated(grown, *node, at as int, c, word@.skip(i + 1), value);
            assert forall|w: Seq<char>| #[trigger]
                node_get(*node, w) == (if w == target {
                    Some(value)
                } else {
                    node_get(before, w)
                }) by {
                assert(node_get(grown, w) == node_get(before, w));
            }
        }
    }
}

/// `words` lists, each once, the words for which the subtree of `node`
/// holds a value, and `values` holds the value of each, in the same order.
pub closed spec fn node_listing<T>(node: Node<T>, words: Seq<Seq<char>>, values: Seq<T>) -> bool {
    &&& words.len() == values.len()
    &&& words.no_duplicates()
    &&& forall|i: int|
        0 <= i < words.len() ==> node_get(node, #[trigger] words[i]) == Some(values[i])
    &&& forall|w: Seq<char>| (#[trigger] node_get(node, w)) is Some ==> words.contains(w)
}

/// The word is empty, or leads into one of the first `j` children.
spec fn reached<T>(node: Node<T>, j: int, w: Seq<char>) -> bool {
    w.len() == 0 || match first_child(node.children@, w[0]) {
        Some(k) => k < j,
        None => false,
    }
}

/// A listing of the words that are reached with the first `j` children.
spec fn partial_listing<T>(node: Node<T>, j: int, words: Seq<Seq<char>>, values: Seq<T>) -> bool {
    &&& words.len() == values.len()
    &&& words.no_duplicates()
    &&& forall|i: int|
        0 <= i < words.len() ==> node_get(node, #[trigger] words[i]) == Some(values[i])
    &&& forall|i: int| 0 <= i < words.len() ==> reached(node, j, #[trigger] words[i])
    &&& forall|w: Seq<char>|
        (#[trigger] node_get(node, w)) is Some && reached(node, j, w) ==> words.contains(w)
}

/// The words of a child, each behind the label of the child.
spec fn behind(c: char, words: Seq<Seq<char>>) -> Seq<Seq<char>> {
    words.map_values(|w: Seq<char>| seq![c] + w)
}

/// With no child looked at, the listing holds the empty word, if the node
/// has a value.
proof fn lemma_listing_start<T>(node: Node<T>)
    ensures
        match node.value {
            Some(v) => partial_listing(node, 0, seq![Seq::<char>::empty()], seq![v]),
            None => partial_listing(node, 0, Seq::<Seq<char>>::empty(), Seq::<T>::empty()),
        },
{
    match node.value {
        Some(v) => {
            let words = seq![Seq::<char>::empty()];
            assert forall|w: Seq<char>|
                (#[trigger] node_get(node, w)) is Some && reached(node, 0, w) implies words.contains(
                w,
            ) by {
                lemma_first_child_is_first(node.children@, w[0]);
                assert(w =~= Seq::<char>::empty());
                assert(words[0] == w);
            }
        },
        None => {
            assert forall|w: Seq<char>|
                (#[trigger] node_get(node, w)) is Some && reached(node, 0, w) implies Seq::<
                Seq<char>,
            >::empty().contains(w) by {
                lemma_first_child_is_first(node.children@, w[0]);
                assert(w =~= Seq::<char>::empty());
            }
        },
    }
}

/// A child that is not the first with its label adds nothing.
proof fn lemma_listing_skip<T>(node: Node<T>, j: int, words: Seq<Seq<char>>, values: Seq<T>)
    requires
        0 <= j < node.children@.len(),
        partial_listing(node, j, words, values),
        first_child(node.children@, node.children@[j].label) != Some(j),
    ensures
        partial_listing(node, j + 1, words, values),
{
    assert forall|w: Seq<char>| reached(node, j + 1, w) implies reached(node, j, w) by {
        if w.len() > 0 {
            lemma_first_child_is_first(node.children@, w[0]);
            let k = first_child(node.children@, w[0])->Some_0;
            if k == j {
                assert(node.children@[j].label == w[0]);
            }
        }
    }
    assert forall|i: int| 0 <= i < words.len() implies reached(node, j + 1, #[trigger] words[i]) by {
        assert(reached(node, j, words[i]));
    }
}

/// The first child with its label adds its words, each behind the label.
proof fn lemma_listing_child<T>(
    node: Node<T>,
    j: int,
    words: Seq<Seq<char>>,
    values: Seq<T>,
    below: Seq<Seq<char>>,
    found: Seq<T>,
)
    requires
        0 <= j < node.children@.len(),
        partial_listing(node, j, words, values),
        first_child(node.children@, node.children@[j].label) == Some(j),
        node_listing(node.children@[j].node, below, found),
    ensures
        partial_listing(
            node,
            j + 1,
            words + behind(node.children@[j].label, below),
            values + found,
        ),
{
    let c = node.children@[j].label;
    let child = node.children@[j].node;
    let added = behind(c, below);
    let all = words + added;
    let vals = values + found;
    assert forall|x: int| 0 <= x < added.len() implies (#[trigger] added[x]).len() > 0
        && added[x][0] == c && added[x].drop_first() == below[x] by {
        assert(added[x] =~= seq![c] + below[x]);
        assert((seq![c] + below[x]).drop_first() =~= below[x]);
    }
    assert forall|i: int| 0 <= i < all.len() implies node_get(node, #[trigger] all[i]) == Some(
        vals[i],
    ) && reached(node, j + 1, all[i]) by {
        if i < words.len() {
            assert(all[i] == words[i]);
            assert(reached(node, j, words[i]));
        } else {
            let x = i - words.len();
            assert(all[i] == added[x]);
            assert(vals[i] == found[x]);
            assert(node_get(child, below[x]) == Some(found[x]));
        }
    }
    assert forall|a: int, b: int| 0 <= a < all.len() && 0 <= b < all.len() && a != b implies all[a]
        != all[b] by {
        if a < words.len() && b < words.len() {
            assert(all[a] == words[a] && all[b] == words[b]);
        } else if a >= words.len() && b >= words.len() {
            let x = a - words.len();
            let y = b - words.len();
            assert(all[a] == added[x] && all[b] == added[y]);
            assert(below[x] != below[y]);
            if added[x] == added[y] {
                assert(added[x].drop_first() == added[y].drop_first());
            }
        } else {
            let old_i = if a < words.len() { a } else { b };
            let new_i = if a < words.len() { b } else { a };
            assert(all[old_i] == words[old_i]);
            assert(all[new_i] == added[new_i - words.len()]);
            assert(reached(node, j, words[old_i]));
        }
    }
    assert forall|w: Seq<char>|
        (#[trigger] node_get(node, w)) is Some && reached(node, j + 1, w) implies all.contains(
        w,
    ) by {
        if reached(node, j, w) {
            assert(words.contains(w));
            let i = choose|i: int| 0 <= i < words.len() && words[i] == w;
            assert(all[i] == w);
        } else {
            lemma_first_child_is_first(node.children@, w[0]);
            let tail = w.drop_first();
            assert(w[0] == c);
            assert(node_get(child, tail) is Some);
            assert(below.contains(tail));
            let x = choose|x: int| 0 <= x < below.len() && below[x] == tail;
            assert(added[x] =~= w);
            assert(all[words.len() + x] == w);
        }
    }
}

/// With all children looked at, the listing is that of the node.
proof fn lemma_listing_done<T>(node: Node<T>, words: Seq<Seq<char>>, values: Seq<T>)
    requires
        partial_listing(node, node.children@.len() as int, words, values),
    ensures
        node_listing(node, words, values),
{
    assert forall|w: Seq<char>| (#[trigger] node_get(node, w)) is Some implies words.contains(
        w,
    ) by {
        if w.len() > 0 {
            lemma_first_child_is_first(node.children@, w[0]);
        }
        assert(reached(node, node.children@.len() as int, w));
    }
}

/// Appends the values of the subtree of `node`, one for each word that it
/// holds; returns the words.
fn visit<T: Copy>(node: &Node<T>, out: &mut Vec<T>) -> (words: Ghost<Seq<Seq<char>>>)
    ensures
        old(out)@.len() <= final(out)@.len(),
        final(out)@.subrange(0, old(out)@.len() as int) == old(out)@,
        node_listing(
            *node,
            words@,
            final(out)@.subrange(old(out)@.len() as int, final(out)@.len() as int),
        ),
    decreases node,
{
    let ghost start = out@;
    let ghost mut words: Seq<Seq<char>> = Seq::empty();
    proof {
        lemma_listing_start(*node);
    }
    match node.value {
        Some(v) => {
            out.push(v);
            proof {
                words = seq![Seq::<char>::empty()];
                assert(out@.subrange(start.len() as int, out@.len() as int) =~= seq![v]);
            }
        },
        None => {
            proof {
                assert(out@.subrange(start.len() as int, out@.len() as int) =~= Seq::<T>::empty());
            }
        },
    }
    proof {
        assert(out@.subrange(0, start.len() as int) =~= start);
    }
    let mut j: usize = 0;
    while j < node.children.len()
        invariant
            j <= node.children.len(),
            start.len() <= out@.len(),
            out@.subrange(0, start.len() as int) == start,
            partial_listing(
                *node,
                j as int,
                words,
                out@.subrange(start.len() as int, out@.len() as int),
            ),
        decreases node.children.len() - j,
    {
        let label: char = node.children[j].label;
        let first = find_child(&node.children, label);
        let ghost before = out@;
        let ghost values = out@.subrange(start.len() as int, out@.len() as int);
        if first == Some(j) {
            let below = visit(&node.children[j].node, out);
            proof {
                let found = out@.subrange(before.len() as int, out@.len() as int);
                lemma_listing_child(*node, j as int, words, values, below@, found);
                assert(out@.subrange(0, before.len() as int) == before);
                assert(out@.subrange(start.len() as int, out@.len() as int) =~= values + found) by {
                    assert forall|x: int| 0 <= x < values.len() implies out@[start.len() + x]
                        == values[x] by {
                        assert(out@.subrange(0, before.len() as int)[start.len() + x]
                            == before[start.len() + x]);
                    }
                }
                assert(out@.subrange(0, start.len() as int) =~= start) by {
                    assert forall|x: int| 0 <= x < start.len() implies out@[x] == start[x] by {
                        assert(out@.subrange(0, before.len() as int)[x] == before[x]);
                        assert(before.subrange(0, start.len() as int)[x] == before[x]);
                    }
                }
                words = words + behind(label, below@);
            }
        } else {
            proof {
                lemma_listing_skip(*node, j as int, words, values);
            }
        }
        j += 1;
    }
    proof {
        lemma_listing_done(*node, words, out@.subrange(start.len() as int, out@.len() as int));
    }
    Ghost(words)
}

impl<T> Trie<T> where T: Default + Clone + Copy {
    /// The value that the trie holds for a word.
    pub closed spec fn get_spec(&self, word: Seq<char>) -> Option<T> {
        node_get(self.root, word)
    }

    /// An empty trie.
    pub fn new() -> (t: Trie<T>)
        ensures
            forall|w: Seq<char>| t.get_spec(w) is None,
    {
        let t = Trie { root: Node { value: None, children: Vec::new() } };
        proof {
            assert forall|w: Seq<char>| t.get_spec(w) is None by {
                lemma_empty_node(t.root, w);
            }
        }
        t
    }

    /// Sets the value of a word.
    pub fn insert(&mut self, word: &str, value: T)
        ensures
            forall|w: Seq<char>|
                #[trigger] final(self).get_spec(w) == (if w == word@ {
                    Some(value)
                } else {
                    old(self).get_spec(w)
                }),
    {
        let chars = chars_of(word);
        proof {
            assert(chars@.skip(0) =~= chars@);
        }
        insert_at(&mut self.root, &chars, 0, value);
    }

    /// The value of a word.
    pub fn get(&self, word: &str) -> (r: Option<T>)
        ensures
            r == self.get_spec(word@),
    {
        match self.get_internal(word) {
            Some(node) => {
                proof {
                    assert(word@ + Seq::<char>::empty() =~= word@);
                }
                node.value
            },
            None => {
                proof {
                    assert(word@ + Seq::<char>::empty() =~= word@);
                }
                None
            },
        }
    }

    /// `words` lists, each once, the endings `w` for which the trie holds a
    /// value of `prefix + w`, and `values` holds the value of each, in the
    /// same order.
    pub open spec fn is_listing(
        &self,
        prefix: Seq<char>,
        words: Seq<Seq<char>>,
        values: Seq<T>,
    ) -> bool {
        &&& words.len() == values.len()
        &&& words.no_duplicates()
        &&& forall|i: int|
            0 <= i < words.len() ==> self.get_spec(prefix + #[trigger] words[i]) == Some(values[i])
        &&& forall|w: Seq<char>|
            (#[trigger] self.get_spec(prefix + w)) is Some ==> words.contains(w)
    }

    /// The values of all words that start with `prefix`: one for each such
    /// word, in no particular order.
    pub fn get_by_prefix(&self, prefix: &str) -> (r: Vec<T>)
        ensures
            exists|words: Seq<Seq<char>>| self.is_listing(prefix@, words, r@),
            forall|v: T|
                r@.contains(v) <==> exists|w: Seq<char>| self.get_spec(prefix@ + w) == Some(v),
    {
        let mut out: Vec<T> = Vec::new();
        let ghost mut words: Seq<Seq<char>> = Seq::empty();
        match self.get_internal(prefix) {
            Some(node) => {
                let below = visit(node, &mut out);
                proof {
                    words = below@;
                    assert(out@.subrange(0, out@.len() as int) =~= out@);
                    assert forall|w: Seq<char>|
                        (#[trigger] self.get_spec(prefix@ + w)) is Some implies words.contains(
                        w,
                    ) by {
                        assert(node_get(*node, w) is Some);
                    }
                    assert forall|i: int| 0 <= i < words.len() implies self.get_spec(
                        prefix@ + #[trigger] words[i],
                    ) == Some(out@[i]) by {
                        assert(node_get(*node, words[i]) == Some(out@[i]));
                    }
                }
            },
            None => {
                proof {
                    assert forall|w: Seq<char>|
                        (#[trigger] self.get_spec(prefix@ + w)) is Some implies words.contains(
                        w,
                    ) by {}
                }
            },
        }
        proof {
            assert(self.is_listing(prefix@, words, out@));
            assert forall|v: T|
                out@.contains(v) <==> exists|w: Seq<char>|
                    self.get_spec(prefix@ + w) == Some(v) by {
                if out@.contains(v) {
                    let i = choose|i: int| 0 <= i < out@.len() && out@[i] == v;
                    assert(self.get_spec(prefix@ + words[i]) == Some(v));
                }
                if exists|w: Seq<char>| self.get_spec(prefix@ + w) == Some(v) {
                    let w = choose|w: Seq<char>| self.get_spec(prefix@ + w) == Some(v);
                    assert(words.contains(w));
                    let i = choose|i: int| 0 <= i < words.len() && words[i] == w;
                    assert(out@[i] == v);
                }
            }
        }
        out
    }

    /// The node at which a word ends.
    fn get_internal(&self, word: &str) -> (r: Option<&Node<T>>)
        ensures
            match r {
                Some(node) => forall|w: Seq<char>| #[trigger]
                    self.get_spec(word@ + w) == node_get(*node, w),
                None => forall|w: Seq<char>| (#[trigger] self.get_spec(word@ + w)) is None,
            },
    {
        let chars = chars_of(word);
        let mut node: &Node<T> = &self.root;
        let mut i: usize = 0;
        proof {
            assert forall|w: Seq<char>| #[trigger]
                node_get(self.root, chars@ + w) == node_get(*node, chars@.skip(0) + w) by {
                assert(chars@.skip(0) =~= chars@);
            }
        }
        while i < chars.len()
            invariant
                i <= chars.len(),
                chars@ == word@,
                forall|w: Seq<char>| #[trigger]
                    node_get(self.root, chars@ + w) == node_get(*node, chars@.skip(i as int) + w),
            decreases chars.len() - i,
        {
            let c: char = chars[i];
            let ghost here = *node;
            match find_child(&node.children, c) {
                Some(at) => {
                    node = &node.children[at].node;
                    proof {
                        assert forall|w: Seq<char>| #[trigger]
                            node_get(self.root, chars@ + w) == node_get(
                                *node,
                                chars@.skip(i + 1) + w,
                            ) by {
                            let rest = chars@.skip(i as int) + w;
                            assert(rest[0] == c);
                            assert(rest.drop_first() =~= chars@.skip(i + 1) + w);
                            assert(node_get(self.root, chars@ + w) == node_get(here, rest));
                        }
                    }
                },
                None => {
                    proof {
                        assert forall|w: Seq<char>| (#[trigger] self.get_spec(word@ + w)) is None by {
                            let rest = chars@.skip(i as int) + w;
                            assert(rest[0] == c);
                            assert(node_get(self.root, chars@ + w) == node_get(here, rest));
                        }
                    }
                    return None;
                },
            }
            i += 1;
        }
        proof {
            assert forall|w: Seq<char>| #[trigger]
                self.get_spec(word@ + w) == node_get(*node, w) by {
                assert(chars@.skip(i as int) + w =~= w);
                assert(node_get(self.root, chars@ + w) == node_get(*node, chars@.skip(i as int) + w));
            }
        }
        Some(node)
    }
}

} // verus!
