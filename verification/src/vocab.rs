//! Vocabulary preparation: intersect the frequency-ranked word list with
//! the list of legal words, keep only words of the square's length, and
//! cap the result at the requested number of entries, most frequent
//! first.

use vstd::prelude::*;
use crate::words::str_views;

verus! {

/// The working vocabulary: the first up-to-`top_n` words of `freq`, in
/// order, whose length is `word_len` and which occur in `dict`.
pub open spec fn spec_working_words(
    freq: Seq<Seq<char>>,
    dict: Seq<Seq<char>>,
    top_n: nat,
    word_len: nat,
) -> Seq<Seq<char>>
    decreases freq.len(),
{
    if freq.len() == 0 || top_n == 0 {
        Seq::<Seq<char>>::empty()
    } else if freq[0].len() == word_len && dict.contains(freq[0]) {
        seq![freq[0]] + spec_working_words(freq.skip(1), dict, (top_n - 1) as nat, word_len)
    } else {
        spec_working_words(freq.skip(1), dict, top_n, word_len)
    }
}

/// Whether `word` occurs in the list.
fn list_contains(words: &Vec<String>, word: &String) -> (r: bool)
    ensures
        r == str_views(words@).contains(word@),
{
    let mut i: usize = 0;
    while i < words.len()
        invariant
            i <= words@.len(),
            forall|j: int| 0 <= j < i ==> str_views(words@)[j] != word@,
        decreases words@.len() - i,
    {
        if words[i].eq(word) {
            proof {
                assert(str_views(words@)[i as int] == word@);
            }
            return true;
        }
        proof {
            assert(str_views(words@)[i as int] == words@[i as int]@);
        }
        i = i + 1;
    }
    false
}

/// Pick the working vocabulary from the frequency-ranked list: keep, in
/// order, each word of length `word_len` that the legal-word list also
/// holds, stopping after `top_n` words.
pub fn filter_working_words(
    freq_words: &Vec<String>,
    dict_words: &Vec<String>,
    top_n: usize,
    word_len: usize,
) -> (r: Vec<String>)
    ensures
        str_views(r@) == spec_working_words(
            str_views(freq_words@),
            str_views(dict_words@),
            top_n as nat,
            word_len as nat,
        ),
        r@.len() <= top_n,
{
    let ghost freqv = str_views(freq_words@);
    let ghost dictv = str_views(dict_words@);
    let ghost goal = spec_working_words(freqv, dictv, top_n as nat, word_len as nat);
    let mut r: Vec<String> = Vec::new();
    let mut i: usize = 0;
    proof {
        assert(freqv.skip(0) =~= freqv);
        assert(str_views(r@) + goal =~= goal);
    }
    while i < freq_words.len() && r.len() < top_n
        invariant
            i <= freq_words@.len(),
            r@.len() <= top_n,
            freqv == str_views(freq_words@),
            dictv == str_views(dict_words@),
            goal == str_views(r@) + spec_working_words(
                freqv.skip(i as int),
                dictv,
                (top_n - r@.len()) as nat,
                word_len as nat,
            ),
        decreases freq_words@.len() - i,
    {
        let ghost restv = freqv.skip(i as int);
        let ghost budget = (top_n - r@.len()) as nat;
        proof {
            assert(restv[0] == freqv[i as int]);
            assert(restv.skip(1) =~= freqv.skip(i as int + 1));
        }
        let word = &freq_words[i];
        proof {
            assert(word@ == freqv[i as int]);
        }
        if word.as_str().unicode_len() == word_len && list_contains(dict_words, word) {
            let ghost pre = r@;
            r.push(word.clone());
            proof {
                assert(restv[0].len() == word_len && dictv.contains(restv[0]));
                assert(spec_working_words(restv, dictv, budget, word_len as nat) == seq![restv[0]]
                    + spec_working_words(
                    restv.skip(1),
                    dictv,
                    (budget - 1) as nat,
                    word_len as nat,
                ));
                assert(str_views(r@) =~= str_views(pre).push(word@));
                assert(str_views(pre).push(word@) + spec_working_words(
                    freqv.skip(i as int + 1),
                    dictv,
                    (top_n - r@.len()) as nat,
                    word_len as nat,
                ) =~= str_views(pre) + (seq![restv[0]] + spec_working_words(
                    freqv.skip(i as int + 1),
                    dictv,
                    (top_n - r@.len()) as nat,
                    word_len as nat,
                )));
            }
        } else {
            proof {
                assert(!(restv[0].len() == word_len && dictv.contains(restv[0])));
                assert(spec_working_words(restv, dictv, budget, word_len as nat)
                    == spec_working_words(restv.skip(1), dictv, budget, word_len as nat));
            }
        }
        i = i + 1;
    }
    proof {
        if r@.len() == top_n {
            assert(spec_working_words(
                freqv.skip(i as int),
                dictv,
                (top_n - r@.len()) as nat,
                word_len as nat,
            ) == Seq::<Seq<char>>::empty());
        } else {
            assert(i == freq_words@.len());
            assert(freqv.skip(i as int) =~= Seq::<Seq<char>>::empty());
            assert(spec_working_words(
                freqv.skip(i as int),
                dictv,
                (top_n - r@.len()) as nat,
                word_len as nat,
            ) == Seq::<Seq<char>>::empty());
        }
        assert(str_views(r@) + Seq::<Seq<char>>::empty() =~= str_views(r@));
    }
    r
}

} // verus!
