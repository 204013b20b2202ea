//! Prefix scores over a collection of lowercase words.
//!
//! For every word in an input collection, the library computes the sum, over
//! all words in the collection, of the length of the longest common prefix
//! with that word. The computation runs on a lazily materialized character
//! trie whose edge counters record how many inserted words pass through each
//! edge; the contracts state the results in terms of the mathematical model
//! in `scoring`.

pub mod laws;
pub mod scoring;
pub mod trie;

use vstd::prelude::*;

use crate::scoring::all_lower;
use crate::scoring::lemma_push_starting;
use crate::scoring::lemma_sum_lcp_le_total;
use crate::scoring::lemma_total_prefix;
use crate::scoring::sum_lcp;
use crate::scoring::total_len;
use crate::trie::inv;
use crate::trie::Node;

verus! {

/// The views of a sequence of words: each word as its character sequence.
pub open spec fn word_views(ws: Seq<String>) -> Seq<Seq<char>> {
    ws.map_values(|w: String| w@)
}

/// The characters of a word, one per slot.
fn to_chars(s: &String) -> (v: Vec<char>)
    ensures
        v@ == s@,
{
    let n = s.as_str().unicode_len();
    let mut v: Vec<char> = Vec::new();
    let mut k: usize = 0;
    while k < n
        invariant
            k <= n,
            n == s@.len(),
            v@ == s@.subrange(0, k as int),
        decreases n - k,
    {
        let ghost prev = v@;
        v.push(s.as_str().get_char(k));
        proof {
            assert(prev.push(s@[k as int]) =~= s@.subrange(0, k + 1));
        }
        k = k + 1;
    }
    proof {
        assert(s@.subrange(0, s@.len() as int) =~= s@);
    }
    v
}

pub struct Solution;

impl Solution {
    /// The prefix score of every word of `words`: for each word, in input
    /// order and once per occurrence, the sum over the whole collection of
    /// the length of the longest common prefix of that word with each
    /// entry. Words must consist of lowercase ASCII letters, and the
    /// collection's total character count must fit the result type.
    pub fn sum_prefix_scores(words: Vec<String>) -> (r: Vec<i32>)
        requires
            forall|j: int| 0 <= j < words@.len() ==> all_lower((#[trigger] words@[j])@),
            total_len(word_views(words@)) <= i32::MAX,
        ensures
            r@.len() == words@.len(),
            forall|k: int|
                0 <= k < words@.len() ==> (#[trigger] r@[k]) as int == sum_lcp(
                    word_views(words@),
                    words@[k]@,
                ),
    {
        let ghost views = word_views(words@);
        let mut letters: Vec<Vec<char>> = Vec::new();
        let mut j: usize = 0;
        while j < words.len()
            invariant
                j <= words@.len(),
                letters@.len() == j as int,
                views == word_views(words@),
                forall|k: int| 0 <= k < j ==> (#[trigger] letters@[k])@ == views[k],
            decreases words@.len() - j,
        {
            let wchars = to_chars(&words[j]);
            letters.push(wchars);
            j = j + 1;
        }
        let mut root = Node::default();
        let mut b: usize = 0;
        while b < letters.len()
            invariant
                b <= letters@.len(),
                letters@.len() == words@.len(),
                views == word_views(words@),
                forall|k: int| 0 <= k < letters@.len() ==> (#[trigger] letters@[k])@ == views[k],
                forall|k: int| 0 <= k < words@.len() ==> all_lower((#[trigger] words@[k])@),
                total_len(views) <= i32::MAX,
                inv(root, views.subrange(0, b as int)),
            decreases letters@.len() - b,
        {
            proof {
                assert(letters@[b as int]@ == views[b as int]);
                assert(letters@[b as int]@.skip(0) =~= views[b as int]);
                lemma_total_prefix(views, b + 1);
                assert(views.subrange(0, b + 1) =~= views.subrange(0, b as int).push(
                    views[b as int],
                ));
                lemma_push_starting(views.subrange(0, b as int), views[b as int], 0);
            }
            root.add(&letters[b], 0, Ghost(views.subrange(0, b as int)));
            proof {
                assert(views.subrange(0, b as int).push(letters@[b as int]@.skip(0))
                    =~= views.subrange(0, b + 1));
            }
            b = b + 1;
        }
        proof {
            assert(views.subrange(0, views.len() as int) =~= views);
        }
        let mut r: Vec<i32> = Vec::new();
        let mut k: usize = 0;
        while k < letters.len()
            invariant
                k <= letters@.len(),
                letters@.len() == words@.len(),
                views == word_views(words@),
                forall|m: int| 0 <= m < letters@.len() ==> (#[trigger] letters@[m])@ == views[m],
                forall|m: int| 0 <= m < words@.len() ==> all_lower((#[trigger] words@[m])@),
                total_len(views) <= i32::MAX,
                inv(root, views),
                r@.len() == k as int,
                forall|m: int|
                    0 <= m < k ==> (#[trigger] r@[m]) as int == sum_lcp(views, views[m]),
            decreases letters@.len() - k,
        {
            proof {
                assert(views.contains(views[k as int]));
                lemma_sum_lcp_le_total(views, views[k as int]);
            }
            let sc = root.score(&letters[k], Ghost(views));
            r.push(sc);
            k = k + 1;
        }
        r
    }
}

} // verus!
