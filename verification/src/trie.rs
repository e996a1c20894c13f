//! Prefix tree over the vocabulary.
//!
//! Each node carries a terminal flag and a list of children keyed by
//! character.  A word is in the trie exactly when the path it spells from
//! the root ends at a terminal node.

use vstd::prelude::*;

verus! {

/// One node of the prefix tree.
pub struct TrieNode {
    pub is_last: bool,
    pub children: Vec<(char, TrieNode)>,
}

/// A prefix tree; the root represents the empty prefix.
pub struct Trie {
    pub root: TrieNode,
}

impl TrieNode {
    /// There is a child edge labelled `c`.
    pub open spec fn has_child(self, c: char) -> bool {
        exists|i: int| 0 <= i < self.children@.len() && self.children@[i].0 == c
    }

    /// The child reached over the edge labelled `c` (meaningful only when
    /// `has_child(c)` holds).
    pub open spec fn spec_child(self, c: char) -> TrieNode {
        let i = choose|i: int| 0 <= i < self.children@.len() && self.children@[i].0 == c;
        self.children@[i].1
    }

    /// No two child edges of this node carry the same character.
    pub open spec fn keys_unique(self) -> bool {
        forall|i: int, j: int|
            0 <= i < j < self.children@.len()
                ==> (#[trigger] self.children@[i]).0 != (#[trigger] self.children@[j]).0
    }

    /// Every node of the subtree has pairwise distinct child keys.
    pub open spec fn wf(self) -> bool
        decreases self,
    {
        self.keys_unique() && (forall|i: int|
            0 <= i < self.children@.len() ==> (#[trigger] self.children@[i]).1.wf())
    }

    /// The path spelled by `w` from this node ends at a terminal node.
    pub open spec fn contains_word(self, w: Seq<char>) -> bool
        decreases w.len(),
    {
        if w.len() == 0 {
            self.is_last
        } else {
            self.has_child(w[0]) && self.spec_child(w[0]).contains_word(w.skip(1))
        }
    }

    /// With distinct keys, the child found at index `i` is the child that
    /// `spec_child` denotes.
    pub proof fn lemma_child_at(self, i: int, c: char)
        requires
            self.keys_unique(),
            0 <= i < self.children@.len(),
            self.children@[i].0 == c,
        ensures
            self.has_child(c),
            self.spec_child(c) == self.children@[i].1,
    {
        let j = choose|j: int| 0 <= j < self.children@.len() && self.children@[j].0 == c;
        if j != i {
            if j < i {
                assert(self.children@[j].0 != self.children@[i].0);
            } else {
                assert(self.children@[i].0 != self.children@[j].0);
            }
        }
    }

    /// A well-formed node's children are well-formed.
    pub proof fn lemma_wf_child(self, c: char)
        requires
            self.wf(),
            self.has_child(c),
        ensures
            self.spec_child(c).wf(),
    {
        let i = choose|i: int| 0 <= i < self.children@.len() && self.children@[i].0 == c;
        assert(self.children@[i].1.wf());
    }

    /// Index of the child edge labelled `c`, if there is one.
    fn find_child(&self, c: char) -> (r: Option<usize>)
        requires
            self.keys_unique(),
        ensures
            r matches Some(i) ==> i < self.children@.len() && self.children@[i as int].0 == c,
            r is None ==> !self.has_child(c),
    {
        let mut i: usize = 0;
        while i < self.children.len()
            invariant
                i <= self.children@.len(),
                forall|j: int| 0 <= j < i ==> (#[trigger] self.children@[j]).0 != c,
            decreases self.children@.len() - i,
        {
            if self.children[i].0 == c {
                return Some(i);
            }
            i = i + 1;
        }
        None
    }

    /// Find the child for character `c`, if present.
    pub fn child(&self, c: char) -> (r: Option<&TrieNode>)
        requires
            self.keys_unique(),
        ensures
            r is Some <==> self.has_child(c),
            r matches Some(node) ==> *node == self.spec_child(c),
    {
        match self.find_child(c) {
            Some(i) => {
                proof {
                    self.lemma_child_at(i as int, c);
                }
                Some(&self.children[i].1)
            },
            None => None,
        }
    }
}

/// A node with no children that is not terminal contains no word at all.
proof fn lemma_empty_node_contains_nothing(n: TrieNode)
    requires
        !n.is_last,
        n.children@.len() == 0,
    ensures
        forall|v: Seq<char>| !n.contains_word(v),
{
    assert forall|v: Seq<char>| !n.contains_word(v) by {
        if v.len() > 0 {
            assert(!n.has_child(v[0]));
        }
    }
}

/// Replacing the child at index `j` by another child with the same key
/// leaves every word intact except those running through that child.
proof fn lemma_update_child(old_n: TrieNode, new_n: TrieNode, j: int, c: char, newc: TrieNode)
    requires
        old_n.keys_unique(),
        0 <= j < old_n.children@.len(),
        old_n.children@[j].0 == c,
        new_n.is_last == old_n.is_last,
        new_n.children@ =~= old_n.children@.update(j, (c, newc)),
    ensures
        new_n.keys_unique(),
        forall|d: char| new_n.has_child(d) == old_n.has_child(d),
        new_n.spec_child(c) == newc,
        forall|d: char|
            d != c && old_n.has_child(d) ==> new_n.spec_child(d) == old_n.spec_child(d),
        forall|v: Seq<char>|
            #[trigger] new_n.contains_word(v) == if v.len() == 0 {
                old_n.is_last
            } else if v[0] == c {
                newc.contains_word(v.skip(1))
            } else {
                old_n.contains_word(v)
            },
{
    assert(new_n.children@.len() == old_n.children@.len());
    assert forall|i: int| 0 <= i < new_n.children@.len() implies (#[trigger] new_n.children@[i]).0
        == old_n.children@[i].0 by {}
    assert(new_n.keys_unique());
    assert forall|d: char| new_n.has_child(d) == old_n.has_child(d) by {
        if old_n.has_child(d) {
            let i = choose|i: int|
                0 <= i < old_n.children@.len() && old_n.children@[i].0 == d;
            assert(new_n.children@[i].0 == d);
        }
        if new_n.has_child(d) {
            let i = choose|i: int|
                0 <= i < new_n.children@.len() && new_n.children@[i].0 == d;
            assert(old_n.children@[i].0 == d);
        }
    }
    assert(new_n.children@[j].0 == c);
    new_n.lemma_child_at(j, c);
    assert(new_n.spec_child(c) == newc);
    assert forall|d: char| d != c && old_n.has_child(d) implies new_n.spec_child(d)
        == old_n.spec_child(d) by {
        let i = choose|i: int| 0 <= i < old_n.children@.len() && old_n.children@[i].0 == d;
        old_n.lemma_child_at(i, d);
        assert(i != j);
        assert(new_n.children@[i].0 == d);
        new_n.lemma_child_at(i, d);
    }
    assert forall|v: Seq<char>|
        #[trigger] new_n.contains_word(v) == if v.len() == 0 {
            old_n.is_last
        } else if v[0] == c {
            newc.contains_word(v.skip(1))
        } else {
            old_n.contains_word(v)
        } by {
        if v.len() == 0 {
        } else if v[0] == c {
            old_n.lemma_child_at(j, c);
        } else {
        }
    }
}

/// Adding a fresh, empty child under an unused key changes no word.
proof fn lemma_push_child(old_n: TrieNode, new_n: TrieNode, c: char, fresh: TrieNode)
    requires
        old_n.keys_unique(),
        !old_n.has_child(c),
        !fresh.is_last,
        fresh.children@.len() == 0,
        new_n.is_last == old_n.is_last,
        new_n.children@ =~= old_n.children@.push((c, fresh)),
    ensures
        new_n.keys_unique(),
        new_n.has_child(c),
        new_n.spec_child(c) == fresh,
        forall|v: Seq<char>| new_n.contains_word(v) == old_n.contains_word(v),
{
    let n = old_n.children@.len() as int;
    assert forall|i: int, j: int|
        0 <= i < j < new_n.children@.len() implies (#[trigger] new_n.children@[i]).0
        != (#[trigger] new_n.children@[j]).0 by {
        if j < n {
        } else {
            assert(new_n.children@[j].0 == c);
            assert(old_n.children@[i] == new_n.children@[i]);
        }
    }
    assert(new_n.children@[n].0 == c);
    new_n.lemma_child_at(n, c);
    lemma_empty_node_contains_nothing(fresh);
    assert forall|v: Seq<char>| new_n.contains_word(v) == old_n.contains_word(v) by {
        if v.len() > 0 {
            if v[0] == c {
                assert(!old_n.has_child(c));
                assert(!fresh.contains_word(v.skip(1)));
            } else {
                assert forall|d: char| d != c implies new_n.has_child(d) == old_n.has_child(
                    d,
                ) by {
                    if old_n.has_child(d) {
                        let i = choose|i: int|
                            0 <= i < old_n.children@.len() && old_n.children@[i].0 == d;
                        assert(new_n.children@[i].0 == d);
                    }
                    if new_n.has_child(d) {
                        let i = choose|i: int|
                            0 <= i < new_n.children@.len() && new_n.children@[i].0 == d;
                        assert(i != n);
                        assert(old_n.children@[i].0 == d);
                    }
                }
                if old_n.has_child(v[0]) {
                    let i = choose|i: int|
                        0 <= i < old_n.children@.len() && old_n.children@[i].0 == v[0];
                    old_n.lemma_child_at(i, v[0]);
                    new_n.lemma_child_at(i, v[0]);
                }
            }
        }
    }
}

impl TrieNode {
    /// Insert the suffix `w[i..]` below this node: afterwards the node
    /// contains exactly the words it contained before, plus that suffix.
    pub fn insert_word(&mut self, w: &Vec<char>, i: usize)
        requires
            old(self).wf(),
            i <= w@.len(),
        ensures
            final(self).wf(),
            forall|v: Seq<char>|
                #[trigger] final(self).contains_word(v) <==> old(self).contains_word(v) || v
                    == w@.skip(i as int),
        decreases w@.len() - i,
    {
        if i == w.len() {
            self.is_last = true;
            proof {
                assert(w@.skip(i as int) =~= Seq::<char>::empty());
                assert forall|v: Seq<char>|
                    #[trigger] final(self).contains_word(v) <==> old(self).contains_word(v) || v
                        == w@.skip(i as int) by {
                    if v.len() == 0 {
                        assert(v =~= Seq::<char>::empty());
                    } else {
                        assert forall|d: char|
                            final(self).has_child(d) == old(self).has_child(d)
                                && (old(self).has_child(d) ==> final(self).spec_child(d) == old(
                                self,
                            ).spec_child(d)) by {}
                    }
                }
            }
        } else {
            let c = w[i];
            let ghost pre = *self;
            let j: usize = match self.find_child(c) {
                Some(jj) => jj,
                None => {
                    let jj = self.children.len();
                    let fresh = TrieNode { is_last: false, children: Vec::new() };
                    let ghost gfresh = fresh;
                    self.children.push((c, fresh));
                    proof {
                        lemma_push_child(pre, *self, c, gfresh);
                    }
                    jj
                },
            };
            proof {
                // In both branches: same word set as `pre`, keys unique, child
                // `j` carries key `c`, and every child subtree is well-formed.
                assert(self.children@[j as int].0 == c);
                assert(self.keys_unique());
                assert forall|k: int|
                    0 <= k < self.children@.len() implies (#[trigger] self.children@[k]).1.wf() by {
                    if k < pre.children@.len() {
                        assert(pre.children@[k].1.wf());
                    }
                }
                assert forall|v: Seq<char>|
                    self.contains_word(v) == pre.contains_word(v) by {}
            }
            let ghost mid = *self;
            let (_key, mut sub) = self.children.remove(j);
            proof {
                mid.lemma_child_at(j as int, c);
                assert(sub == mid.spec_child(c));
                assert(sub.wf());
            }
            sub.insert_word(w, i + 1);
            self.children.insert(j, (c, sub));
            proof {
                assert(self.children@ =~= mid.children@.update(j as int, (c, sub)));
                lemma_update_child(mid, *self, j as int, c, sub);
                let ghost target = mid.spec_child(c);
                // Well-formedness of the final node.
                assert forall|k: int|
                    0 <= k < self.children@.len() implies (#[trigger] self.children@[k]).1.wf() by {
                    if k == j as int {
                        assert(self.children@[k].1 == sub);
                    } else {
                        assert(self.children@[k] == mid.children@[k]);
                        assert(mid.children@[k].1.wf());
                    }
                }
                assert(self.wf());
                // The word set changed by exactly the inserted suffix.
                assert(w@.skip(i as int)[0] == c);
                assert(w@.skip(i as int).skip(1) =~= w@.skip(i as int + 1));
                assert forall|v: Seq<char>|
                    #[trigger] self.contains_word(v) <==> pre.contains_word(v) || v == w@.skip(
                    i as int,
                ) by {
                    if v.len() == 0 {
                        assert(v != w@.skip(i as int));
                    } else if v[0] == c {
                        assert(self.contains_word(v) == sub.contains_word(v.skip(1)));
                        assert(sub.contains_word(v.skip(1)) <==> target.contains_word(v.skip(1))
                            || v.skip(1) == w@.skip(i as int + 1));
                        assert(mid.contains_word(v) == target.contains_word(v.skip(1)));
                        if v.skip(1) == w@.skip(i as int + 1) {
                            assert(v.len() == w@.skip(i as int).len());
                            assert forall|k: int| 0 <= k < v.len() implies v[k] == w@.skip(
                                i as int,
                            )[k] by {
                                if k > 0 {
                                    assert(v.skip(1)[k - 1] == v[k]);
                                    assert(w@.skip(i as int + 1)[k - 1] == w@[i + k]);
                                    assert(w@.skip(i as int)[k] == w@[i + k]);
                                }
                            }
                            assert(v =~= w@.skip(i as int));
                        }
                        if v == w@.skip(i as int) {
                            assert(v.skip(1) == w@.skip(i as int + 1));
                        }
                    } else {
                        assert(self.contains_word(v) == mid.contains_word(v));
                        if v == w@.skip(i as int) {
                            assert(v[0] == c);
                        }
                    }
                }
            }
        }
    }
}

/// The error a defensive insertion reports.
#[derive(Clone, Copy, Debug, PartialEq, Eq, Structural)]
pub enum TrieError {
    /// The word's length does not match the configured square dimension.
    InvalidWordLength,
}

impl Trie {
    /// Every node of the tree has pairwise distinct child keys.
    pub open spec fn wf(self) -> bool {
        self.root.wf()
    }

    /// The word `w` is held by the trie.
    pub open spec fn spec_contains(self, w: Seq<char>) -> bool {
        self.root.contains_word(w)
    }

    /// An empty trie: it contains no word.
    pub fn new() -> (r: Trie)
        ensures
            r.wf(),
            forall|v: Seq<char>| !r.spec_contains(v),
    {
        let t = Trie { root: TrieNode { is_last: false, children: Vec::new() } };
        proof {
            lemma_empty_node_contains_nothing(t.root);
        }
        t
    }

    /// Insert one word: afterwards the trie contains exactly the words it
    /// contained before, plus this one.
    pub fn add_word(&mut self, word: &str)
        requires
            old(self).wf(),
        ensures
            final(self).wf(),
            forall|v: Seq<char>|
                #[trigger] final(self).spec_contains(v) <==> old(self).spec_contains(v) || v
                    == word@,
    {
        let chars = chars_of(word);
        self.root.insert_word(&chars, 0);
        proof {
            assert(chars@.skip(0) =~= word@);
        }
    }

    /// Insert every word of the list, in order.
    pub fn add_words(&mut self, words: &Vec<String>)
        requires
            old(self).wf(),
        ensures
            final(self).wf(),
            forall|v: Seq<char>|
                #[trigger] final(self).spec_contains(v) <==> old(self).spec_contains(v) || (
                exists|k: int| 0 <= k < words@.len() && words@[k]@ == v),
    {
        let mut idx: usize = 0;
        while idx < words.len()
            invariant
                idx <= words@.len(),
                self.wf(),
                forall|v: Seq<char>|
                    #[trigger] self.spec_contains(v) <==> old(self).spec_contains(v) || (
                    exists|k: int| 0 <= k < idx && words@[k]@ == v),
            decreases words@.len() - idx,
        {
            self.add_word(words[idx].as_str());
            proof {
                assert forall|v: Seq<char>|
                    #[trigger] self.spec_contains(v) <==> old(self).spec_contains(v) || (
                    exists|k: int| 0 <= k < idx + 1 && words@[k]@ == v) by {
                    if v == words@[idx as int]@ {
                        assert(0 <= idx < idx + 1 && words@[idx as int]@ == v);
                    }
                }
            }
            idx = idx + 1;
        }
    }

    /// Insert one word after checking its length against the square
    /// dimension; a mismatched word is refused and the trie is unchanged.
    pub fn add_word_checked(&mut self, word: &str, word_len: usize) -> (r: Result<(), TrieError>)
        requires
            old(self).wf(),
        ensures
            final(self).wf(),
            word@.len() == word_len ==> r is Ok && (forall|v: Seq<char>|
                #[trigger] final(self).spec_contains(v) <==> old(self).spec_contains(v) || v
                    == word@),
            word@.len() != word_len ==> r == Result::<(), TrieError>::Err(
                TrieError::InvalidWordLength,
            ) && *final(self) == *old(self),
    {
        if word.unicode_len() == word_len {
            self.add_word(word);
            Ok(())
        } else {
            Err(TrieError::InvalidWordLength)
        }
    }

    /// Walk the path spelled by `word`; report whether it ends terminal.
    pub fn contains_word(&self, word: &str) -> (r: bool)
        requires
            self.wf(),
        ensures
            r == self.spec_contains(word@),
    {
        let chars = chars_of(word);
        let mut node: &TrieNode = &self.root;
        let mut i: usize = 0;
        proof {
            assert(chars@.skip(0) =~= word@);
        }
        while i < chars.len()
            invariant
                i <= chars@.len(),
                chars@ == word@,
                node.wf(),
                self.spec_contains(word@) == node.contains_word(chars@.skip(i as int)),
            decreases chars@.len() - i,
        {
            let ghost pre = *node;
            let c = chars[i];
            match node.child(c) {
                Some(n) => {
                    node = n;
                },
                None => {
                    proof {
                        assert(chars@.skip(i as int)[0] == c);
                        assert(!pre.contains_word(chars@.skip(i as int)));
                    }
                    return false;
                },
            }
            proof {
                pre.lemma_wf_child(c);
                assert(chars@.skip(i as int)[0] == c);
                assert(chars@.skip(i as int).skip(1) =~= chars@.skip(i as int + 1));
                assert(pre.contains_word(chars@.skip(i as int)) == node.contains_word(
                    chars@.skip(i as int + 1),
                ));
            }
            i = i + 1;
        }
        proof {
            assert(chars@.skip(i as int) =~= Seq::<char>::empty());
        }
        node.is_last
    }
}

/// Build a trie holding exactly the given words.
pub fn build_trie(words: &Vec<String>) -> (r: Trie)
    ensures
        r.wf(),
        forall|v: Seq<char>|
            #[trigger] r.spec_contains(v) <==> exists|k: int|
                0 <= k < words@.len() && words@[k]@ == v,
{
    let mut t = Trie::new();
    t.add_words(words);
    t
}

/// The characters of a string slice, as a vector.
pub fn chars_of(word: &str) -> (r: Vec<char>)
    ensures
        r@ == word@,
{
    let n = word.unicode_len();
    let mut r: Vec<char> = Vec::new();
    let mut i: usize = 0;
    while i < n
        invariant
            i <= n,
            n == word@.len(),
            r@ =~= word@.take(i as int),
        decreases n - i,
    {
        r.push(word.get_char(i));
        i = i + 1;
    }
    proof {
        assert(r@ =~= word@);
    }
    r
}

} // verus!
