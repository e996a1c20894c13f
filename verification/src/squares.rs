//! Row-by-row backtracking assembly of word squares.
//!
//! Row `i` is chosen by the constrained enumerator: positions below the
//! diagonal are pinned to the characters the earlier rows already placed
//! (grid symmetry), the rest are free over the whole alphabet.  A grid
//! that reaches `n` rows is emitted; a dead end backtracks.

use vstd::prelude::*;
use crate::trie::Trie;
use crate::trie::TrieNode;
use crate::trie::chars_of;
use crate::words::enum_words;
use crate::words::enumerate_words;
use crate::words::lemma_enumeration_complete;
use crate::words::lemma_enumeration_sound;
use crate::words::lemma_enumeration_unique;
use crate::words::sets_duplicate_free;
use crate::words::str_views;
use crate::words::views_of;

verus! {

/// A complete solution: `n` rows of `n` characters, every row a
/// vocabulary word, and the grid symmetric — so each column reads the
/// same as its matching row.
pub open spec fn valid_square(root: TrieNode, n: nat, sq: Seq<Seq<char>>) -> bool {
    &&& sq.len() == n
    &&& forall|i: int| 0 <= i < n ==> (#[trigger] sq[i]).len() == n
    &&& forall|i: int| 0 <= i < n ==> root.contains_word(#[trigger] sq[i])
    &&& forall|i: int, j: int| 0 <= i < n && 0 <= j < n ==> #[trigger] sq[i][j] == sq[j][i]
}

/// The search invariant: every placed row is a vocabulary word of length
/// `n`, and the grid is symmetric wherever both cells lie in placed rows.
pub open spec fn valid_prefix(root: TrieNode, n: nat, rows: Seq<Seq<char>>) -> bool {
    &&& rows.len() <= n
    &&& forall|i: int| 0 <= i < rows.len() ==> (#[trigger] rows[i]).len() == n
    &&& forall|i: int| 0 <= i < rows.len() ==> root.contains_word(#[trigger] rows[i])
    &&& forall|i: int, j: int|
        0 <= i < rows.len() && 0 <= j < rows.len() ==> #[trigger] rows[i][j] == rows[j][i]
}

/// The views of a sequence of squares.
pub open spec fn square_views(sqs: Seq<Vec<String>>) -> Seq<Seq<Seq<char>>> {
    sqs.map_values(|sq: Vec<String>| str_views(sq@))
}

/// The constraint list the assembler uses for the row after `prefix`:
/// positions below the diagonal are pinned by symmetry, the rest are
/// free over the alphabet.
pub open spec fn spec_row_constraints(prefix: Seq<Seq<char>>, n: nat) -> Seq<Seq<char>> {
    Seq::new(
        n as nat,
        |j: int|
            if j < prefix.len() {
                seq![prefix[j][prefix.len() as int]]
            } else {
                spec_alphabet()
            },
    )
}

/// Every square the backtracking search completes from `prefix`, in
/// search order.
pub open spec fn spec_squares_from(root: TrieNode, n: nat, prefix: Seq<Seq<char>>) -> Seq<
    Seq<Seq<char>>,
>
    decreases n - prefix.len(), 1int, 0int,
{
    if prefix.len() >= n {
        seq![prefix]
    } else {
        spec_squares_cands(
            root,
            n,
            prefix,
            enum_words(root, spec_row_constraints(prefix, n)),
            0,
        )
    }
}

/// The squares reached by trying, in order, the candidate rows from
/// index `t` on.
pub open spec fn spec_squares_cands(
    root: TrieNode,
    n: nat,
    prefix: Seq<Seq<char>>,
    cands: Seq<Seq<char>>,
    t: int,
) -> Seq<Seq<Seq<char>>>
    decreases n - prefix.len(), 0int, cands.len() - t,
{
    if prefix.len() >= n || t < 0 || t >= cands.len() {
        Seq::<Seq<Seq<char>>>::empty()
    } else {
        spec_squares_from(root, n, prefix.push(cands[t])) + spec_squares_cands(
            root,
            n,
            prefix,
            cands,
            t + 1,
        )
    }
}

/// The first `m` squares of `s`, or all of them when there are fewer.
pub open spec fn take_at_most(s: Seq<Seq<Seq<char>>>, m: nat) -> Seq<Seq<Seq<char>>> {
    if s.len() <= m {
        s
    } else {
        s.take(m as int)
    }
}

/// Capping once more after appending adds nothing beyond capping the
/// whole concatenation.
proof fn lemma_take_at_most_compose(x: Seq<Seq<Seq<char>>>, y: Seq<Seq<Seq<char>>>, m: nat)
    ensures
        take_at_most(take_at_most(x, m) + y, m) == take_at_most(x + y, m),
{
    if x.len() <= m {
        assert(take_at_most(x, m) == x);
    } else {
        assert((x + y).len() > m);
        assert(take_at_most(x, m) == x.take(m as int));
        let base = x.take(m as int) + y;
        if base.len() <= m {
            assert(y.len() == 0);
            assert(base =~= (x + y).take(m as int));
            assert(take_at_most(base, m) == base);
        } else {
            assert(take_at_most(base, m) == base.take(m as int));
            assert(base.take(m as int) =~= (x + y).take(m as int));
        }
    }
}

/// The unconstrained character set: the lower-case alphabet, in order.
pub open spec fn spec_alphabet() -> Seq<char> {
    seq![
        'a', 'b', 'c', 'd', 'e', 'f', 'g', 'h', 'i', 'j', 'k', 'l', 'm', 'n', 'o', 'p', 'q', 'r',
        's', 't', 'u', 'v', 'w', 'x', 'y', 'z',
    ]
}

/// The alphabet as a vector, for building constraint entries.
pub fn full_alphabet() -> (r: Vec<char>)
    ensures
        r@ == spec_alphabet(),
{
    let r = vec![
        'a', 'b', 'c', 'd', 'e', 'f', 'g', 'h', 'i', 'j', 'k', 'l', 'm', 'n', 'o', 'p', 'q', 'r',
        's', 't', 'u', 'v', 'w', 'x', 'y', 'z',
    ];
    proof {
        assert(r@ =~= spec_alphabet());
    }
    r
}

/// The constraint list for the next row: position `j` below the diagonal
/// is pinned to the character row `j` placed at the new row's index, the
/// rest are free.
fn row_constraints(rows: &Vec<String>, n: usize) -> (r: Vec<Vec<char>>)
    requires
        rows@.len() < n,
        forall|j: int| 0 <= j < rows@.len() ==> (#[trigger] rows@[j])@.len() == n,
    ensures
        r@.len() == n,
        forall|j: int|
            0 <= j < rows@.len() ==> (#[trigger] r@[j])@ == seq![rows@[j]@[rows@.len() as int]],
        forall|j: int| rows@.len() <= j < n ==> (#[trigger] r@[j])@ == spec_alphabet(),
{
    let i = rows.len();
    let mut cs: Vec<Vec<char>> = Vec::new();
    let mut j: usize = 0;
    while j < n
        invariant
            j <= n,
            i == rows@.len(),
            i < n,
            forall|t: int| 0 <= t < i ==> (#[trigger] rows@[t])@.len() == n,
            cs@.len() == j,
            forall|t: int| 0 <= t < j && t < i ==> (#[trigger] cs@[t])@ == seq![rows@[t]@[i as int]],
            forall|t: int| i <= t < j ==> (#[trigger] cs@[t])@ == spec_alphabet(),
        decreases n - j,
    {
        if j < i {
            let c = rows[j].as_str().get_char(i);
            let mut single: Vec<char> = Vec::new();
            single.push(c);
            proof {
                assert(single@ =~= seq![c]);
            }
            cs.push(single);
        } else {
            cs.push(full_alphabet());
        }
        j = j + 1;
    }
    cs
}

/// Copy the row list.
fn clone_rows(rows: &Vec<String>) -> (r: Vec<String>)
    ensures
        r@ == rows@,
{
    let mut r: Vec<String> = Vec::new();
    let mut i: usize = 0;
    while i < rows.len()
        invariant
            i <= rows@.len(),
            r@ == rows@.take(i as int),
        decreases rows@.len() - i,
    {
        r.push(rows[i].clone());
        proof {
            assert(r@ =~= rows@.take(i as int + 1));
        }
        i = i + 1;
    }
    proof {
        assert(rows@.take(rows@.len() as int) =~= rows@);
    }
    r
}

/// Extend the partial square `rows` (already `depth` rows deep) in every
/// way the vocabulary allows, recording each completed square, until the
/// optional cap is reached; `rows` is left as it was found.
fn search_rows(
    trie: &Trie,
    n: usize,
    rows: &mut Vec<String>,
    out: &mut Vec<Vec<String>>,
    limit: Option<usize>,
    depth: usize,
)
    requires
        trie.wf(),
        1 <= n,
        depth == old(rows)@.len(),
        valid_prefix(trie.root, n as nat, str_views(old(rows)@)),
        forall|k: int|
            0 <= k < old(out)@.len() ==> valid_square(
                trie.root,
                n as nat,
                str_views((#[trigger] old(out)@[k])@),
            ),
        limit matches Some(m) ==> old(out)@.len() <= m,
    ensures
        final(rows)@ == old(rows)@,
        forall|k: int|
            0 <= k < final(out)@.len() ==> valid_square(
                trie.root,
                n as nat,
                str_views((#[trigger] final(out)@[k])@),
            ),
        limit matches Some(m) ==> final(out)@.len() <= m,
        limit is None ==> square_views(final(out)@) == square_views(old(out)@)
            + spec_squares_from(trie.root, n as nat, str_views(old(rows)@)),
        limit matches Some(m) ==> square_views(final(out)@) == take_at_most(
            square_views(old(out)@) + spec_squares_from(trie.root, n as nat, str_views(old(rows)@)),
            m as nat,
        ),
    decreases n - depth,
{
    let ghost out0 = out@;
    let ghost whole = spec_squares_from(trie.root, n as nat, str_views(old(rows)@));
    match limit {
        Some(m) => {
            if out.len() >= m {
                proof {
                    let a = square_views(out0);
                    assert(a.len() == m);
                    if (a + whole).len() <= m {
                        assert(whole.len() == 0);
                        assert(a + whole =~= a);
                        assert(take_at_most(a + whole, m as nat) == a + whole);
                    } else {
                        assert(take_at_most(a + whole, m as nat) == (a + whole).take(m as int));
                        assert((a + whole).take(m as int) =~= a);
                    }
                }
                return ;
            }
        },
        None => {},
    }
    if depth == n {
        let sq = clone_rows(rows);
        proof {
            assert(valid_square(trie.root, n as nat, str_views(sq@)));
        }
        out.push(sq);
        proof {
            let pv = str_views(old(rows)@);
            assert(pv.len() == n);
            assert(whole == seq![pv]);
            assert(str_views(sq@) == pv);
            assert(square_views(out@) =~= square_views(out0).push(pv));
            assert(square_views(out0).push(pv) =~= square_views(out0) + seq![pv]);
            match limit {
                Some(m) => {
                    assert((square_views(out0) + whole).len() <= m);
                    assert(take_at_most(square_views(out0) + whole, m as nat) == square_views(out0)
                        + whole);
                },
                None => {},
            }
        }
        return ;
    }
    let ghost snap = rows@;
    let ghost snapv = str_views(rows@);
    proof {
        assert forall|j: int| 0 <= j < rows@.len() implies (#[trigger] rows@[j])@.len() == n by {
            assert(str_views(snap)[j] == snap[j]@);
            assert(str_views(snap)[j].len() == n);
        }
    }
    let cs = row_constraints(rows, n);
    let ghost csv = views_of(cs@);
    proof {
        assert forall|j: int| 0 <= j < n implies #[trigger] csv[j] == spec_row_constraints(
            snapv,
            n as nat,
        )[j] by {
            assert(csv[j] == cs@[j]@);
            if j < depth {
                assert(str_views(snap)[j] == snap[j]@);
            }
        }
        assert(csv =~= spec_row_constraints(snapv, n as nat));
    }
    let candidates = enumerate_words(&trie.root, cs.as_slice());
    let ghost candsv = str_views(candidates@);
    let mut t: usize = 0;
    let ghost mut done: Seq<Seq<Seq<char>>> = Seq::<Seq<Seq<char>>>::empty();
    proof {
        assert(done + spec_squares_cands(trie.root, n as nat, snapv, candsv, 0)
            =~= spec_squares_cands(trie.root, n as nat, snapv, candsv, 0));
        assert(square_views(out0) + done =~= square_views(out0));
        match limit {
            Some(m) => {
                assert(square_views(out0).len() == out0.len());
                assert(take_at_most(square_views(out0) + done, m as nat) == square_views(out0));
            },
            None => {},
        }
    }
    while t < candidates.len()
        invariant
            trie.wf(),
            1 <= n,
            depth < n,
            t <= candidates@.len(),
            rows@ == snap,
            snapv == str_views(snap),
            depth == snap.len(),
            valid_prefix(trie.root, n as nat, snapv),
            csv == views_of(cs@),
            csv.len() == n,
            csv == spec_row_constraints(snapv, n as nat),
            forall|j: int| 0 <= j < depth ==> #[trigger] csv[j] == seq![snapv[j][depth as int]],
            candsv == str_views(candidates@),
            candsv == enum_words(trie.root, csv),
            forall|k: int|
                0 <= k < out@.len() ==> valid_square(
                    trie.root,
                    n as nat,
                    str_views((#[trigger] out@[k])@),
                ),
            limit matches Some(m) ==> out@.len() <= m,
            limit is None ==> square_views(out@) + spec_squares_cands(
                trie.root,
                n as nat,
                snapv,
                candsv,
                t as int,
            ) == square_views(out0) + spec_squares_cands(trie.root, n as nat, snapv, candsv, 0),
            done + spec_squares_cands(trie.root, n as nat, snapv, candsv, t as int)
                == spec_squares_cands(trie.root, n as nat, snapv, candsv, 0),
            limit matches Some(m) ==> square_views(out@) == take_at_most(
                square_views(out0) + done,
                m as nat,
            ),
        decreases candidates@.len() - t,
    {
        let w = candidates[t].clone();
        proof {
            assert(str_views(candidates@)[t as int] == w@);
            assert(enum_words(trie.root, csv).contains(w@));
            lemma_enumeration_sound(trie.root, csv, w@);
            assert(w@.len() == n);
            // The new prefix is valid: length and membership come from
            // soundness, symmetry from the pinned positions.
            let rv = str_views(snap.push(w));
            assert(rv =~= snapv.push(w@));
            assert forall|a: int, b: int|
                0 <= a < rv.len() && 0 <= b < rv.len() implies #[trigger] rv[a][b] == rv[b][a] by {
                if a < depth && b < depth {
                    assert(snapv[a][b] == snapv[b][a]);
                } else if a == depth && b < depth {
                    assert(csv[b].contains(w@[b]));
                    assert(csv[b] == seq![snapv[b][depth as int]]);
                    let x = choose|x: int| 0 <= x < 1 && csv[b][x] == w@[b];
                    assert(w@[b] == snapv[b][depth as int]);
                } else if b == depth && a < depth {
                    assert(csv[a].contains(w@[a]));
                    assert(csv[a] == seq![snapv[a][depth as int]]);
                    let x = choose|x: int| 0 <= x < 1 && csv[a][x] == w@[a];
                    assert(w@[a] == snapv[a][depth as int]);
                }
            }
            assert(valid_prefix(trie.root, n as nat, rv));
        }
        let ghost out_iter = out@;
        let ghost wv = w@;
        rows.push(w);
        let ghost pushed = str_views(rows@);
        proof {
            assert(pushed =~= snapv.push(wv));
        }
        search_rows(trie, n, rows, out, limit, depth + 1);
        let _ = rows.pop();
        proof {
            assert(rows@ =~= snap);
            let root = trie.root;
            let nn = n as nat;
            let sw = spec_squares_from(root, nn, snapv.push(wv));
            let rest = spec_squares_cands(root, nn, snapv, candsv, t as int + 1);
            assert(candsv[t as int] == wv);
            assert(pushed == snapv.push(wv));
            assert(spec_squares_cands(root, nn, snapv, candsv, t as int) == sw + rest);
            if limit is None {
                assert(square_views(out@) == square_views(out_iter) + sw);
                assert((square_views(out_iter) + sw) + rest =~= square_views(out_iter) + (sw
                    + rest));
            }
            match limit {
                Some(m) => {
                    assert(square_views(out@) == take_at_most(
                        square_views(out_iter) + sw,
                        m as nat,
                    ));
                    assert(square_views(out_iter) == take_at_most(
                        square_views(out0) + done,
                        m as nat,
                    ));
                    lemma_take_at_most_compose(square_views(out0) + done, sw, m as nat);
                    assert((square_views(out0) + done) + sw =~= square_views(out0) + (done + sw));
                    assert(square_views(out@).len() <= m);
                    assert(out@.len() == square_views(out@).len());
                },
                None => {},
            }
            assert((done + sw) + rest =~= done + (sw + rest));
            done = done + sw;
        }
        t = t + 1;
    }
    proof {
        let root = trie.root;
        let nn = n as nat;
        assert(candsv.len() == candidates@.len());
        assert(spec_squares_cands(root, nn, snapv, candsv, t as int) == Seq::<
            Seq<Seq<char>>,
        >::empty());
        assert(spec_squares_from(root, nn, snapv) == spec_squares_cands(
            root,
            nn,
            snapv,
            enum_words(root, spec_row_constraints(snapv, nn)),
            0,
        ));
        assert(done + Seq::<Seq<Seq<char>>>::empty() =~= done);
        assert(done == whole);
        if limit is None {
            assert(square_views(out@) + Seq::<Seq<Seq<char>>>::empty() =~= square_views(out@));
        }
    }
}

/// Produce word squares of side `word_length` by backtracking over rows;
/// with `limit` given, stop after that many squares.  Every emitted
/// square is symmetric and made of vocabulary words only; an empty or
/// unsuitable vocabulary simply yields no squares.
pub fn find_squares(trie: &Trie, word_length: usize, limit: Option<usize>) -> (r: Vec<
    Vec<String>,
>)
    requires
        trie.wf(),
        1 <= word_length,
    ensures
        forall|k: int|
            0 <= k < r@.len() ==> valid_square(
                trie.root,
                word_length as nat,
                str_views((#[trigger] r@[k])@),
            ),
        limit matches Some(m) ==> r@.len() <= m,
        limit is None ==> square_views(r@) == spec_squares_from(
            trie.root,
            word_length as nat,
            Seq::<Seq<char>>::empty(),
        ),
        limit matches Some(m) ==> square_views(r@) == take_at_most(
            spec_squares_from(trie.root, word_length as nat, Seq::<Seq<char>>::empty()),
            m as nat,
        ),
{
    let mut rows: Vec<String> = Vec::new();
    let mut out: Vec<Vec<String>> = Vec::new();
    proof {
        assert(str_views(rows@) =~= Seq::<Seq<char>>::empty());
        assert(square_views(out@) =~= Seq::<Seq<Seq<char>>>::empty());
    }
    search_rows(trie, word_length, &mut rows, &mut out, limit, 0);
    proof {
        assert(Seq::<Seq<Seq<char>>>::empty() + spec_squares_from(
            trie.root,
            word_length as nat,
            Seq::<Seq<char>>::empty(),
        ) =~= spec_squares_from(trie.root, word_length as nat, Seq::<Seq<char>>::empty()));
    }
    out
}

/// The constraint list that pins every position of a word to itself.
pub open spec fn singleton_constraints(w: Seq<char>) -> Seq<Seq<char>> {
    Seq::new(w.len(), |j: int| seq![w[j]])
}

/// Enumerating under fully pinned constraints finds exactly the word
/// itself — once — when the trie holds it, and nothing otherwise.
pub proof fn lemma_singleton_enum(root: TrieNode, w: Seq<char>)
    ensures
        enum_words(root, singleton_constraints(w)) == if root.contains_word(w) {
            seq![w]
        } else {
            Seq::<Seq<char>>::empty()
        },
{
    let cs = singleton_constraints(w);
    let e = enum_words(root, cs);
    assert forall|i: int| 0 <= i < e.len() implies e[i] == w by {
        assert(e.contains(e[i]));
        lemma_enumeration_sound(root, cs, e[i]);
        assert forall|k: int| 0 <= k < w.len() implies e[i][k] == w[k] by {
            assert(cs[k].contains(e[i][k]));
            let x = choose|x: int| 0 <= x < 1 && cs[k][x] == e[i][k];
            assert(cs[k][0] == w[k]);
        }
        assert(e[i] =~= w);
    }
    if root.contains_word(w) {
        assert forall|k: int| 0 <= k < cs.len() implies #[trigger] cs[k].contains(w[k]) by {
            assert(cs[k][0] == w[k]);
        }
        lemma_enumeration_complete(root, cs, w);
        assert(e.len() >= 1);
        assert forall|t: int, i: int, j: int|
            0 <= t < cs.len() && 0 <= i < j < cs[t].len() implies #[trigger] cs[t][i]
            != #[trigger] cs[t][j] by {
            assert(cs[t].len() == 1);
        }
        assert(sets_duplicate_free(cs));
        lemma_enumeration_unique(root, cs);
        if e.len() > 1 {
            assert(e[0] == w);
            assert(e[1] == w);
            assert(false);
        }
        assert(e =~= seq![w]);
    } else {
        if e.len() > 0 {
            assert(e.contains(e[0]));
            lemma_enumeration_sound(root, cs, e[0]);
            assert(root.contains_word(w));
        }
        assert(e =~= Seq::<Seq<char>>::empty());
    }
}

/// The fully pinned constraint list for a word, as vectors.
fn singleton_cs(word: &str) -> (r: Vec<Vec<char>>)
    ensures
        views_of(r@) == singleton_constraints(word@),
{
    let chars = chars_of(word);
    let mut r: Vec<Vec<char>> = Vec::new();
    let mut i: usize = 0;
    while i < chars.len()
        invariant
            i <= chars@.len(),
            chars@ == word@,
            r@.len() == i,
            forall|j: int| 0 <= j < i ==> (#[trigger] r@[j])@ == seq![word@[j]],
        decreases chars@.len() - i,
    {
        let mut single: Vec<char> = Vec::new();
        single.push(chars[i]);
        proof {
            assert(single@ =~= seq![word@[i as int]]);
        }
        r.push(single);
        i = i + 1;
    }
    proof {
        assert(views_of(r@) =~= singleton_constraints(word@));
    }
    r
}

/// For each starting word, drive the enumerator with every position
/// pinned to that word's characters: the result row holds exactly the
/// word itself when the trie contains it, and is empty otherwise.
pub fn gen_first_row(trie: &Trie, working_words: &Vec<String>) -> (r: Vec<Vec<String>>)
    requires
        trie.wf(),
    ensures
        r@.len() == working_words@.len(),
        forall|i: int|
            0 <= i < r@.len() ==> str_views((#[trigger] r@[i])@) == (if trie.spec_contains(
                working_words@[i]@,
            ) {
                seq![working_words@[i]@]
            } else {
                Seq::<Seq<char>>::empty()
            }),
{
    let mut r: Vec<Vec<String>> = Vec::new();
    let mut i: usize = 0;
    while i < working_words.len()
        invariant
            trie.wf(),
            i <= working_words@.len(),
            r@.len() == i,
            forall|t: int|
                0 <= t < i ==> str_views((#[trigger] r@[t])@) == (if trie.spec_contains(
                    working_words@[t]@,
                ) {
                    seq![working_words@[t]@]
                } else {
                    Seq::<Seq<char>>::empty()
                }),
        decreases working_words@.len() - i,
    {
        let cs = singleton_cs(working_words[i].as_str());
        let found = enumerate_words(&trie.root, cs.as_slice());
        proof {
            lemma_singleton_enum(trie.root, working_words@[i as int]@);
        }
        r.push(found);
        i = i + 1;
    }
    r
}

} // verus!
