//! The library's general guarantees, stated and proved over the model that
//! the executable contracts use.

use vstd::prelude::*;

use crate::scoring::lcp;
use crate::scoring::lemma_lcp_self;
use crate::scoring::lemma_sum_lcp_push;
use crate::scoring::lemma_sum_lcp_singleton;
use crate::scoring::lemma_sum_lcp_update;
use crate::scoring::sum_lcp;

verus! {

/// A collection holding a single word scores that word at its own length:
/// each prefix depth contributes exactly one matching word, the word's own.
pub proof fn lemma_single_word_score(w: Seq<char>)
    ensures
        sum_lcp(seq![w], w) == w.len(),
{
    lemma_sum_lcp_singleton(w, w);
    lemma_lcp_self(w);
}

/// Adding words to the collection never lowers the score of a word already
/// in it: the entries already present keep their contributions, and new
/// entries can only add.
pub proof fn lemma_score_monotone(ss: Seq<Seq<char>>, extra: Seq<Seq<char>>, q: Seq<char>)
    requires
        ss.contains(q),
    ensures
        sum_lcp(ss + extra, q) >= sum_lcp(ss, q),
    decreases extra.len(),
{
    if extra.len() == 0 {
        assert(ss + extra =~= ss);
    } else {
        lemma_score_monotone(ss, extra.drop_last(), q);
        assert(ss + extra =~= (ss + extra.drop_last()).push(extra.last()));
        lemma_sum_lcp_push(ss + extra.drop_last(), extra.last(), q);
    }
}

/// Swapping two entries of the collection moves only their own scores: every
/// other position scores as before, and the two swapped positions exchange
/// their former values unchanged.
pub proof fn lemma_swap_entries(ss: Seq<Seq<char>>, j1: int, j2: int)
    requires
        0 <= j1 < ss.len(),
        0 <= j2 < ss.len(),
    ensures
        ({
            let swapped = ss.update(j1, ss[j2]).update(j2, ss[j1]);
            &&& swapped.len() == ss.len()
            &&& forall|q: Seq<char>| sum_lcp(swapped, q) == sum_lcp(ss, q)
            &&& forall|k: int|
                0 <= k < ss.len() && k != j1 && k != j2 ==> sum_lcp(swapped, #[trigger] swapped[k])
                    == sum_lcp(ss, ss[k])
            &&& sum_lcp(swapped, swapped[j1]) == sum_lcp(ss, ss[j2])
            &&& sum_lcp(swapped, swapped[j2]) == sum_lcp(ss, ss[j1])
        }),
{
    let swapped = ss.update(j1, ss[j2]).update(j2, ss[j1]);
    assert forall|q: Seq<char>| sum_lcp(swapped, q) == sum_lcp(ss, q) by {
        lemma_sum_lcp_update(ss, j1, ss[j2], q);
        lemma_sum_lcp_update(ss.update(j1, ss[j2]), j2, ss[j1], q);
        assert(lcp(ss.update(j1, ss[j2])[j2], q) + lcp(ss[j1], q) == lcp(ss[j2], q) + lcp(
            ss[j1],
            q,
        ));
    }
}

} // verus!
