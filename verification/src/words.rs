//! Position-constrained word enumeration.
//!
//! Given a trie node and, for each remaining character position, the list
//! of characters permitted there, the enumerator produces every word
//! spelled by a terminal path from that node whose k-th character is
//! allowed at position k — in the order the permitted characters are
//! given, and without exploring any branch that the trie or the
//! constraints rule out.

use vstd::prelude::*;
use vstd::slice::slice_index_get;
use vstd::slice::slice_subrange;
use crate::trie::TrieNode;

verus! {

/// The views of a sequence of character vectors.
pub open spec fn views_of(rows: Seq<Vec<char>>) -> Seq<Seq<char>> {
    rows.map_values(|v: Vec<char>| v@)
}

/// The views of a sequence of strings.
pub open spec fn str_views(ws: Seq<String>) -> Seq<Seq<char>> {
    ws.map_values(|s: String| s@)
}

/// Each word of `ws`, prefixed by `p`.
pub open spec fn prefix_all(p: Seq<char>, ws: Seq<Seq<char>>) -> Seq<Seq<char>> {
    ws.map_values(|w: Seq<char>| p + w)
}

/// All words of length `cs.len()` spelled by a terminal path from `n`
/// whose k-th character is allowed by `cs[k]`, in the order the allowed
/// characters are listed.
pub open spec fn enum_words(n: TrieNode, cs: Seq<Seq<char>>) -> Seq<Seq<char>>
    decreases cs.len(), 2int, 0int,
{
    if cs.len() == 0 {
        if n.is_last {
            seq![Seq::<char>::empty()]
        } else {
            Seq::<Seq<char>>::empty()
        }
    } else {
        enum_upto(n, cs, cs[0].len() as int)
    }
}

/// The part of `enum_words` contributed by the first `k` characters that
/// `cs[0]` allows.
pub open spec fn enum_upto(n: TrieNode, cs: Seq<Seq<char>>, k: int) -> Seq<Seq<char>>
    decreases cs.len(), 1int, k,
{
    if cs.len() == 0 || k <= 0 || k > cs[0].len() {
        Seq::<Seq<char>>::empty()
    } else {
        enum_upto(n, cs, k - 1) + char_words(n, cs, cs[0][k - 1])
    }
}

/// The words that begin with `c`: `c` in front of every word enumerable
/// from the child for `c` under the remaining constraints; nothing when
/// the trie has no such branch.
pub open spec fn char_words(n: TrieNode, cs: Seq<Seq<char>>, c: char) -> Seq<Seq<char>>
    decreases cs.len(), 0int, 0int,
{
    if cs.len() == 0 {
        Seq::<Seq<char>>::empty()
    } else if n.has_child(c) {
        prefix_all(seq![c], enum_words(n.spec_child(c), cs.skip(1)))
    } else {
        Seq::<Seq<char>>::empty()
    }
}

/// An enumerator over the words consistent with a constraint list; it
/// hands them out one at a time, in order.
pub struct WordsFromValidCharsIter {
    words: Vec<String>,
    pos: usize,
}

/// All words the enumerators of the list still hold, in order.
pub open spec fn flatten_remaining(its: Seq<WordsFromValidCharsIter>) -> Seq<Seq<char>>
    decreases its.len(),
{
    if its.len() == 0 {
        Seq::<Seq<char>>::empty()
    } else {
        its[0].remaining() + flatten_remaining(its.skip(1))
    }
}

proof fn lemma_flatten_push(its: Seq<WordsFromValidCharsIter>, it: WordsFromValidCharsIter)
    ensures
        flatten_remaining(its.push(it)) == flatten_remaining(its) + it.remaining(),
    decreases its.len(),
{
    assert(flatten_remaining(its.push(it)) == its.push(it)[0].remaining() + flatten_remaining(
        its.push(it).skip(1),
    ));
    if its.len() == 0 {
        assert(its.push(it).skip(1) =~= Seq::<WordsFromValidCharsIter>::empty());
        assert(flatten_remaining(Seq::<WordsFromValidCharsIter>::empty()) == Seq::<
            Seq<char>,
        >::empty());
        assert(its.push(it)[0] == it);
        assert(it.remaining() + Seq::<Seq<char>>::empty() =~= it.remaining());
        assert(Seq::<Seq<char>>::empty() + it.remaining() =~= it.remaining());
        assert(flatten_remaining(its) == Seq::<Seq<char>>::empty());
    } else {
        assert(its.push(it).skip(1) =~= its.skip(1).push(it));
        lemma_flatten_push(its.skip(1), it);
        assert(its.push(it)[0] == its[0]);
        assert(flatten_remaining(its) == its[0].remaining() + flatten_remaining(its.skip(1)));
        assert((its[0].remaining() + flatten_remaining(its.skip(1))) + it.remaining() =~= its[0].remaining()
            + (flatten_remaining(its.skip(1)) + it.remaining()));
    }
}

/// Relies on String::push: it appends the given character at the end of
/// the string and changes nothing else.
#[verifier::external_body]
fn push_char(s: &mut String, c: char)
    ensures
        final(s)@ == old(s)@.push(c),
{
    s.push(c)
}

impl WordsFromValidCharsIter {
    /// The position never runs past the held words.
    pub closed spec fn inv(self) -> bool {
        self.pos <= self.words@.len()
    }

    /// The words not yet handed out, in the order they will come.
    pub closed spec fn remaining(self) -> Seq<Seq<char>> {
        str_views(self.words@).skip(self.pos as int)
    }

    /// There is at least one word still to come.
    pub fn has_more(&self) -> (r: bool)
        requires
            self.inv(),
        ensures
            r == (self.remaining().len() > 0),
    {
        self.pos < self.words.len()
    }

    /// Hand out the next word, or report exhaustion.
    pub fn next(&mut self) -> (r: Option<String>)
        requires
            old(self).inv(),
        ensures
            final(self).inv(),
            old(self).remaining().len() == 0 ==> r is None && *final(self) == *old(self),
            old(self).remaining().len() > 0 ==> (r matches Some(s) && s@ == old(
                self,
            ).remaining()[0] && final(self).remaining() == old(self).remaining().skip(1)),
    {
        if self.pos < self.words.len() {
            let s = self.words[self.pos].clone();
            self.pos = self.pos + 1;
            proof {
                assert(s@ == old(self).remaining()[0]);
                assert(self.remaining() =~= old(self).remaining().skip(1));
            }
            Some(s)
        } else {
            None
        }
    }

    /// One enumerator per character the first constraint entry allows and
    /// the trie can follow; together they hold exactly the words
    /// enumerable from `word_trie_node` under the whole constraint list.
    pub fn make_child_iters(word_trie_node: &TrieNode, valid_next_row_chars: &[Vec<char>]) -> (r:
        Vec<WordsFromValidCharsIter>)
        requires
            word_trie_node.wf(),
            valid_next_row_chars@.len() > 0,
        ensures
            forall|t: int| 0 <= t < r@.len() ==> (#[trigger] r@[t]).inv(),
            flatten_remaining(r@) == enum_words(*word_trie_node, views_of(valid_next_row_chars@)),
        decreases valid_next_row_chars@.len(), 0int,
    {
        let ghost n0 = *word_trie_node;
        let ghost csv = views_of(valid_next_row_chars@);
        let row: &Vec<char> = slice_index_get(valid_next_row_chars, 0);
        let mut iters: Vec<WordsFromValidCharsIter> = Vec::new();
        let mut k: usize = 0;
        proof {
            assert(csv[0] == row@);
            assert(flatten_remaining(iters@) =~= enum_upto(n0, csv, 0));
        }
        while k < row.len()
            invariant
                word_trie_node.wf(),
                *word_trie_node == n0,
                csv == views_of(valid_next_row_chars@),
                csv.len() > 0,
                csv[0] == row@,
                k <= row@.len(),
                forall|t: int| 0 <= t < iters@.len() ==> (#[trigger] iters@[t]).inv(),
                flatten_remaining(iters@) == enum_upto(n0, csv, k as int),
            decreases row@.len() - k,
        {
            let c = row[k];
            let ghost pre_iters = iters@;
            match word_trie_node.child(c) {
                None => {
                    proof {
                        assert(char_words(n0, csv, c) =~= Seq::<Seq<char>>::empty());
                        assert(csv[0][k as int] == c);
                        assert(enum_upto(n0, csv, k as int + 1) == enum_upto(n0, csv, k as int)
                            + char_words(n0, csv, c));
                        assert(enum_upto(n0, csv, k as int) + Seq::<Seq<char>>::empty()
                            =~= enum_upto(n0, csv, k as int));
                    }
                },
                Some(child) => {
                    proof {
                        word_trie_node.lemma_wf_child(c);
                    }
                    let mut pc = String::new();
                    push_char(&mut pc, c);
                    let rest = slice_subrange(
                        valid_next_row_chars,
                        1,
                        valid_next_row_chars.len(),
                    );
                    proof {
                        assert(pc@ =~= seq![c]);
                        assert(views_of(rest@) =~= csv.skip(1));
                    }
                    let it = WordsFromValidCharsIter::new(child, pc, rest);
                    proof {
                        lemma_flatten_push(iters@, it);
                        assert(csv[0][k as int] == c);
                        assert(it.remaining() == char_words(n0, csv, c));
                        assert(enum_upto(n0, csv, k as int + 1) == enum_upto(n0, csv, k as int)
                            + char_words(n0, csv, c));
                    }
                    iters.push(it);
                },
            }
            k = k + 1;
        }
        proof {
            assert(enum_words(n0, csv) == enum_upto(n0, csv, csv[0].len() as int));
        }
        iters
    }

    /// A fresh enumerator: it will hand out, in order, `prefix_char`
    /// followed by each word enumerable from `word_trie_node` under the
    /// given constraint list.
    pub fn new(
        word_trie_node: &TrieNode,
        prefix_char: String,
        valid_next_row_chars: &[Vec<char>],
    ) -> (r: WordsFromValidCharsIter)
        requires
            word_trie_node.wf(),
        ensures
            r.inv(),
            r.remaining() == prefix_all(
                prefix_char@,
                enum_words(*word_trie_node, views_of(valid_next_row_chars@)),
            ),
        decreases valid_next_row_chars@.len(), 1int,
    {
        let ghost n0 = *word_trie_node;
        let ghost csv = views_of(valid_next_row_chars@);
        let ghost p = prefix_char@;
        let ghost total = enum_words(n0, csv);
        let mut words: Vec<String> = Vec::new();
        if valid_next_row_chars.len() == 0 {
            proof {
                assert(csv =~= Seq::<Seq<char>>::empty());
            }
            if word_trie_node.is_last {
                words.push(prefix_char);
                proof {
                    assert(total == seq![Seq::<char>::empty()]);
                    assert(p + Seq::<char>::empty() =~= p);
                    assert(str_views(words@) =~= prefix_all(p, total));
                }
            } else {
                proof {
                    assert(total == Seq::<Seq<char>>::empty());
                    assert(str_views(words@) =~= prefix_all(p, total));
                }
            }
        } else {
            let mut child_iters = Self::make_child_iters(word_trie_node, valid_next_row_chars);
            let ghost mut done: Seq<Seq<char>> = Seq::<Seq<char>>::empty();
            proof {
                assert(str_views(words@) =~= prefix_all(p, done));
                assert(done + flatten_remaining(child_iters@) =~= flatten_remaining(child_iters@));
            }
            while child_iters.len() > 0
                invariant
                    forall|t: int| 0 <= t < child_iters@.len() ==> (#[trigger] child_iters@[t]).inv(),
                    str_views(words@) == prefix_all(p, done),
                    done + flatten_remaining(child_iters@) == total,
                    prefix_char@ == p,
                decreases child_iters@.len(),
            {
                let ghost pre = child_iters@;
                let mut it = child_iters.remove(0);
                proof {
                    assert(pre[0] == it);
                    assert(pre.skip(1) =~= child_iters@);
                    assert(flatten_remaining(pre) == it.remaining() + flatten_remaining(
                        child_iters@,
                    ));
                    assert((done + it.remaining()) + flatten_remaining(child_iters@) =~= done + (
                    it.remaining() + flatten_remaining(child_iters@)));
                }
                let mut more = it.has_more();
                while more
                    invariant
                        it.inv(),
                        more == (it.remaining().len() > 0),
                        forall|t: int|
                            0 <= t < child_iters@.len() ==> (#[trigger] child_iters@[t]).inv(),
                        str_views(words@) == prefix_all(p, done),
                        (done + it.remaining()) + flatten_remaining(child_iters@) == total,
                        prefix_char@ == p,
                    decreases it.remaining().len(),
                {
                    let ghost rem = it.remaining();
                    match it.next() {
                        Some(sfx) => {
                            let w = prefix_char.clone().concat(sfx.as_str());
                            let ghost pre_words = words@;
                            proof {
                                assert(w@ == p + rem[0]);
                            }
                            words.push(w);
                            proof {
                                let ghost done2 = done.push(rem[0]);
                                assert(words@ == pre_words.push(w));
                                assert(str_views(pre_words).len() == pre_words.len());
                                assert(prefix_all(p, done).len() == done.len());
                                assert(done.len() == pre_words.len());
                                assert forall|i: int| 0 <= i < words@.len() implies str_views(
                                    words@,
                                )[i] == prefix_all(p, done2)[i] by {
                                    if i < pre_words.len() {
                                        assert(words@[i] == pre_words[i]);
                                        assert(done2[i] == done[i]);
                                        assert(str_views(pre_words)[i] == prefix_all(p, done)[i]);
                                    } else {
                                        assert(words@[i] == w);
                                        assert(done2[i] == rem[0]);
                                    }
                                }
                                assert(str_views(words@).len() == prefix_all(p, done2).len());
                                assert(str_views(words@) =~= prefix_all(p, done2));
                                assert(done2 + it.remaining() =~= done + rem);
                                assert((done2 + it.remaining()) + flatten_remaining(child_iters@)
                                    =~= (done + rem) + flatten_remaining(child_iters@));
                                done = done2;
                            }
                        },
                        None => {
                            proof {
                                assert(false);
                            }
                        },
                    }
                    more = it.has_more();
                }
                proof {
                    assert(done + it.remaining() =~= done);
                }
            }
            proof {
                assert(flatten_remaining(child_iters@) =~= Seq::<Seq<char>>::empty());
                assert(done + flatten_remaining(child_iters@) =~= done);
                assert(done == total);
            }
        }
        let r = WordsFromValidCharsIter { words, pos: 0 };
        proof {
            assert(r.remaining() =~= str_views(words@));
        }
        r
    }
}

/// Each constraint entry lists each character at most once.
pub open spec fn sets_duplicate_free(cs: Seq<Seq<char>>) -> bool {
    forall|t: int, i: int, j: int|
        #![trigger cs[t][i], cs[t][j]]
        0 <= t < cs.len() && 0 <= i < j < cs[t].len() ==> cs[t][i] != cs[t][j]
}

proof fn lemma_dupfree_skip(cs: Seq<Seq<char>>)
    requires
        sets_duplicate_free(cs),
        cs.len() > 0,
    ensures
        sets_duplicate_free(cs.skip(1)),
{
    assert forall|t: int, i: int, j: int|
        0 <= t < cs.skip(1).len() && 0 <= i < j < cs.skip(1)[t].len() implies #[trigger] cs.skip(
        1,
    )[t][i] != #[trigger] cs.skip(1)[t][j] by {
        assert(cs.skip(1)[t] == cs[t + 1]);
        assert(cs[t + 1][i] != cs[t + 1][j]);
    }
}

/// Enumerator soundness: every enumerated word is exactly as long as the
/// constraint list, is spelled by a terminal path from `n`, and draws its
/// k-th character from the k-th constraint entry.
pub proof fn lemma_enumeration_sound(n: TrieNode, cs: Seq<Seq<char>>, w: Seq<char>)
    requires
        enum_words(n, cs).contains(w),
    ensures
        w.len() == cs.len(),
        n.contains_word(w),
        forall|k: int| 0 <= k < cs.len() ==> #[trigger] cs[k].contains(w[k]),
    decreases cs.len(), 1int, 0int,
{
    if cs.len() == 0 {
        if n.is_last {
            assert(enum_words(n, cs) == seq![Seq::<char>::empty()]);
            assert(w == Seq::<char>::empty());
        } else {
            assert(enum_words(n, cs).len() == 0);
        }
    } else {
        lemma_enum_upto_sound(n, cs, cs[0].len() as int, w);
        assert forall|k: int| 0 <= k < cs.len() implies #[trigger] cs[k].contains(w[k]) by {
            if k == 0 {
                let j = choose|j: int| 0 <= j < cs[0].len() && cs[0][j] == w[0];
                assert(cs[0][j] == w[0]);
            }
        }
    }
}

proof fn lemma_enum_upto_sound(n: TrieNode, cs: Seq<Seq<char>>, k: int, w: Seq<char>)
    requires
        cs.len() > 0,
        0 <= k <= cs[0].len(),
        enum_upto(n, cs, k).contains(w),
    ensures
        w.len() == cs.len(),
        n.contains_word(w),
        exists|j: int| 0 <= j < k && cs[0][j] == w[0],
        forall|t: int| 1 <= t < cs.len() ==> #[trigger] cs[t].contains(w[t]),
    decreases cs.len(), 0int, k,
{
    assert(k > 0);
    let c = cs[0][k - 1];
    let left = enum_upto(n, cs, k - 1);
    let right = char_words(n, cs, c);
    assert(enum_upto(n, cs, k) == left + right);
    let idx = choose|idx: int|
        0 <= idx < enum_upto(n, cs, k).len() && enum_upto(n, cs, k)[idx] == w;
    if idx < left.len() {
        assert(left[idx] == w);
        assert(left.contains(w));
        lemma_enum_upto_sound(n, cs, k - 1, w);
        let j = choose|j: int| 0 <= j < k - 1 && cs[0][j] == w[0];
        assert(0 <= j < k && cs[0][j] == w[0]);
    } else {
        assert(n.has_child(c));
        let sub = enum_words(n.spec_child(c), cs.skip(1));
        let j = idx - left.len();
        assert(right[j] == seq![c] + sub[j]);
        let wsub = sub[j];
        assert(w == seq![c] + wsub);
        assert(sub.contains(wsub));
        lemma_enumeration_sound(n.spec_child(c), cs.skip(1), wsub);
        assert(w.len() == cs.len());
        assert(w[0] == c);
        assert(w.skip(1) =~= wsub);
        assert(n.contains_word(w));
        assert(0 <= k - 1 < k && cs[0][k - 1] == w[0]);
        assert forall|t: int| 1 <= t < cs.len() implies #[trigger] cs[t].contains(w[t]) by {
            assert(cs.skip(1)[t - 1].contains(wsub[t - 1]));
            assert(cs.skip(1)[t - 1] == cs[t]);
            assert(wsub[t - 1] == w[t]);
        }
    }
}

/// Enumerator completeness: every word of the right length that is
/// spelled by a terminal path from `n` and draws each character from the
/// corresponding constraint entry is enumerated.
pub proof fn lemma_enumeration_complete(n: TrieNode, cs: Seq<Seq<char>>, w: Seq<char>)
    requires
        w.len() == cs.len(),
        n.contains_word(w),
        forall|k: int| 0 <= k < cs.len() ==> #[trigger] cs[k].contains(w[k]),
    ensures
        enum_words(n, cs).contains(w),
    decreases cs.len(), 1int, 0int,
{
    if cs.len() == 0 {
        assert(w =~= Seq::<char>::empty());
        assert(n.is_last);
        assert(enum_words(n, cs)[0] == w);
    } else {
        assert(cs[0].contains(w[0]));
        let j = choose|j: int| 0 <= j < cs[0].len() && cs[0][j] == w[0];
        lemma_enum_upto_complete(n, cs, j + 1, w);
        lemma_enum_upto_grow(n, cs, j + 1, cs[0].len() as int, w);
    }
}

proof fn lemma_enum_upto_complete(n: TrieNode, cs: Seq<Seq<char>>, k: int, w: Seq<char>)
    requires
        cs.len() > 0,
        w.len() == cs.len(),
        n.contains_word(w),
        forall|t: int| 0 <= t < cs.len() ==> #[trigger] cs[t].contains(w[t]),
        0 < k <= cs[0].len(),
        cs[0][k - 1] == w[0],
    ensures
        enum_upto(n, cs, k).contains(w),
    decreases cs.len(), 0int, 0int,
{
    let c = w[0];
    assert(n.has_child(c));
    let sub = n.spec_child(c);
    assert forall|t: int|
        0 <= t < cs.skip(1).len() implies #[trigger] cs.skip(1)[t].contains(w.skip(1)[t]) by {
        assert(cs.skip(1)[t] == cs[t + 1]);
        assert(w.skip(1)[t] == w[t + 1]);
        assert(cs[t + 1].contains(w[t + 1]));
    }
    lemma_enumeration_complete(sub, cs.skip(1), w.skip(1));
    let subws = enum_words(sub, cs.skip(1));
    let idx = choose|idx: int| 0 <= idx < subws.len() && subws[idx] == w.skip(1);
    assert(char_words(n, cs, c)[idx] == seq![c] + subws[idx]);
    assert(seq![c] + w.skip(1) =~= w);
    let left = enum_upto(n, cs, k - 1);
    assert(enum_upto(n, cs, k)[left.len() + idx] == w);
    assert(enum_upto(n, cs, k).contains(w));
}

proof fn lemma_enum_upto_grow(n: TrieNode, cs: Seq<Seq<char>>, k1: int, k2: int, w: Seq<char>)
    requires
        cs.len() > 0,
        0 <= k1 <= k2 <= cs[0].len(),
        enum_upto(n, cs, k1).contains(w),
    ensures
        enum_upto(n, cs, k2).contains(w),
    decreases k2 - k1,
{
    if k1 < k2 {
        lemma_enum_upto_grow(n, cs, k1, k2 - 1, w);
        let left = enum_upto(n, cs, k2 - 1);
        let right = char_words(n, cs, cs[0][k2 - 1]);
        let idx = choose|idx: int| 0 <= idx < left.len() && left[idx] == w;
        assert(enum_upto(n, cs, k2)[idx] == w);
        assert(enum_upto(n, cs, k2).contains(w));
    }
}

/// Enumerator uniqueness: when each constraint entry lists each character
/// at most once, no word is enumerated twice.  Together with
/// completeness, every matching word appears exactly once.
pub proof fn lemma_enumeration_unique(n: TrieNode, cs: Seq<Seq<char>>)
    requires
        sets_duplicate_free(cs),
    ensures
        forall|i: int, j: int|
            0 <= i < j < enum_words(n, cs).len() ==> enum_words(n, cs)[i] != enum_words(n, cs)[j],
    decreases cs.len(), 1int, 0int,
{
    if cs.len() == 0 {
        assert(enum_words(n, cs).len() <= 1);
    } else {
        lemma_enum_upto_unique(n, cs, cs[0].len() as int);
        assert(enum_words(n, cs) == enum_upto(n, cs, cs[0].len() as int));
    }
}

proof fn lemma_enum_upto_unique(n: TrieNode, cs: Seq<Seq<char>>, k: int)
    requires
        sets_duplicate_free(cs),
        cs.len() > 0,
        0 <= k <= cs[0].len(),
    ensures
        forall|i: int, j: int|
            0 <= i < j < enum_upto(n, cs, k).len() ==> enum_upto(n, cs, k)[i] != enum_upto(
                n,
                cs,
                k,
            )[j],
    decreases cs.len(), 0int, k,
{
    if k > 0 {
        lemma_enum_upto_unique(n, cs, k - 1);
        let c = cs[0][k - 1];
        let left = enum_upto(n, cs, k - 1);
        let right = char_words(n, cs, c);
        if n.has_child(c) {
            lemma_dupfree_skip(cs);
            lemma_enumeration_unique(n.spec_child(c), cs.skip(1));
        }
        let whole = enum_upto(n, cs, k);
        assert(whole == left + right);
        assert forall|i: int, j: int| 0 <= i < j < whole.len() implies whole[i] != whole[j] by {
            if j < left.len() {
                assert(left[i] != left[j]);
            } else if i >= left.len() {
                let sub = enum_words(n.spec_child(c), cs.skip(1));
                let a = i - left.len();
                let b = j - left.len();
                assert(whole[i] == seq![c] + sub[a]);
                assert(whole[j] == seq![c] + sub[b]);
                assert(sub[a] != sub[b]);
                assert((seq![c] + sub[a]).skip(1) =~= sub[a]);
                assert((seq![c] + sub[b]).skip(1) =~= sub[b]);
            } else {
                let b = j - left.len();
                let sub = enum_words(n.spec_child(c), cs.skip(1));
                assert(whole[j] == seq![c] + sub[b]);
                assert(whole[j][0] == c);
                assert(left[i] == whole[i]);
                assert(left.contains(left[i]));
                lemma_enum_upto_sound(n, cs, k - 1, left[i]);
                let j0 = choose|j0: int| 0 <= j0 < k - 1 && cs[0][j0] == left[i][0];
                assert(cs[0][j0] != cs[0][k - 1]);
                assert(whole[i][0] != whole[j][0]);
            }
        }
    }
}

/// All vocabulary words consistent with the per-position constraint sets,
/// in constraint order.
pub fn enumerate_words(node: &TrieNode, constraints: &[Vec<char>]) -> (r: Vec<String>)
    requires
        node.wf(),
    ensures
        str_views(r@) == enum_words(*node, views_of(constraints@)),
{
    let mut it = WordsFromValidCharsIter::new(node, String::new(), constraints);
    let ghost total = enum_words(*node, views_of(constraints@));
    proof {
        assert(it.remaining() =~= total) by {
            assert forall|i: int| 0 <= i < total.len() implies prefix_all(
                Seq::<char>::empty(),
                total,
            )[i] == total[i] by {
                assert(Seq::<char>::empty() + total[i] =~= total[i]);
            }
            assert(prefix_all(Seq::<char>::empty(), total) =~= total);
        }
    }
    let mut out: Vec<String> = Vec::new();
    let mut more = it.has_more();
    while more
        invariant
            it.inv(),
            more == (it.remaining().len() > 0),
            str_views(out@) + it.remaining() == total,
        decreases it.remaining().len(),
    {
        let ghost rem = it.remaining();
        match it.next() {
            Some(s) => {
                let ghost pre_out = out@;
                out.push(s);
                proof {
                    assert(out@ == pre_out.push(s));
                    assert(str_views(out@) =~= str_views(pre_out).push(s@));
                    assert(str_views(pre_out).push(rem[0]) + rem.skip(1) =~= str_views(pre_out)
                        + rem);
                }
            },
            None => {
                proof {
                    assert(false);
                }
            },
        }
        more = it.has_more();
    }
    proof {
        assert(str_views(out@) + it.remaining() =~= str_views(out@));
    }
    out
}

} // verus!
