//! The mathematical model of prefix scoring.
//!
//! A word's score against a collection is the sum, over every entry of the
//! collection, of the length of the longest common prefix of the entry and
//! the word. The spec functions here define that sum together with the
//! per-letter bookkeeping (`count_starting`, `tails_starting`) that the trie
//! invariant speaks of, and the lemmas relate the two.

use vstd::prelude::*;

verus! {

/// A lowercase ASCII letter.
pub open spec fn is_lower_char(c: char) -> bool {
    'a' as u32 <= c as u32 && c as u32 <= 'z' as u32
}

/// Every character of `s` is a lowercase ASCII letter.
pub open spec fn all_lower(s: Seq<char>) -> bool {
    forall|j: int| 0 <= j < s.len() ==> is_lower_char(s[j])
}

/// Every entry of `ss` consists of lowercase ASCII letters.
pub open spec fn all_entries_lower(ss: Seq<Seq<char>>) -> bool {
    forall|j: int| 0 <= j < ss.len() ==> all_lower(#[trigger] ss[j])
}

/// The slot a lowercase letter occupies in a 26-way branching table.
pub open spec fn letter_index(c: char) -> int {
    c as u32 - 'a' as u32
}

/// Length of the longest common prefix of `a` and `b`.
pub open spec fn lcp(a: Seq<char>, b: Seq<char>) -> nat
    decreases a.len(),
{
    if a.len() == 0 || b.len() == 0 || a[0] != b[0] {
        0
    } else {
        1 + lcp(a.skip(1), b.skip(1))
    }
}

/// The prefix score of `q` against the collection `ss`: the sum of the
/// longest-common-prefix lengths of `q` with every entry of `ss`.
pub open spec fn sum_lcp(ss: Seq<Seq<char>>, q: Seq<char>) -> nat
    decreases ss.len(),
{
    if ss.len() == 0 {
        0
    } else {
        sum_lcp(ss.drop_last(), q) + lcp(ss.last(), q)
    }
}

/// How many entries of `ss` start with the letter of slot `c`.
pub open spec fn count_starting(ss: Seq<Seq<char>>, c: int) -> nat
    decreases ss.len(),
{
    if ss.len() == 0 {
        0
    } else {
        count_starting(ss.drop_last(), c) + if starts_at(ss.last(), c) {
            1nat
        } else {
            0nat
        }
    }
}

/// The entry is non-empty and its first letter occupies slot `c`.
pub open spec fn starts_at(t: Seq<char>, c: int) -> bool {
    t.len() > 0 && letter_index(t[0]) == c
}

/// The tails (first letter removed, order kept) of the entries of `ss` that
/// start with the letter of slot `c`.
pub open spec fn tails_starting(ss: Seq<Seq<char>>, c: int) -> Seq<Seq<char>>
    decreases ss.len(),
{
    if ss.len() == 0 {
        Seq::empty()
    } else if starts_at(ss.last(), c) {
        tails_starting(ss.drop_last(), c).push(ss.last().skip(1))
    } else {
        tails_starting(ss.drop_last(), c)
    }
}

/// The total number of characters held by the entries of `ss`.
pub open spec fn total_len(ss: Seq<Seq<char>>) -> nat
    decreases ss.len(),
{
    if ss.len() == 0 {
        0
    } else {
        total_len(ss.drop_last()) + ss.last().len()
    }
}

/// Appending a lowercase entry keeps a collection lowercase.
pub proof fn lemma_push_lower(ss: Seq<Seq<char>>, t: Seq<char>)
    requires
        all_entries_lower(ss),
        all_lower(t),
    ensures
        all_entries_lower(ss.push(t)),
{
    assert forall|k: int| 0 <= k < ss.push(t).len() implies all_lower(#[trigger] ss.push(t)[k]) by {
        if k < ss.len() {
            assert(ss.push(t)[k] == ss[k]);
        } else {
            assert(ss.push(t)[k] == t);
        }
    }
}

/// A suffix of a lowercase suffix is lowercase.
pub proof fn lemma_skip_lower(s: Seq<char>, i: int, j: int)
    requires
        0 <= i <= j <= s.len(),
        all_lower(s.skip(i)),
    ensures
        all_lower(s.skip(j)),
{
    assert forall|k: int| 0 <= k < s.skip(j).len() implies is_lower_char(s.skip(j)[k]) by {
        assert(s.skip(i)[k + (j - i)] == s[k + j]);
        assert(is_lower_char(s.skip(i)[k + (j - i)]));
    }
}

/// A word shares every one of its characters with itself.
pub proof fn lemma_lcp_self(a: Seq<char>)
    ensures
        lcp(a, a) == a.len(),
    decreases a.len(),
{
    if a.len() > 0 {
        lemma_lcp_self(a.skip(1));
    }
}

/// A common prefix is never longer than either word.
pub proof fn lemma_lcp_le(a: Seq<char>, b: Seq<char>)
    ensures
        lcp(a, b) <= a.len(),
        lcp(a, b) <= b.len(),
    decreases a.len(),
{
    if !(a.len() == 0 || b.len() == 0 || a[0] != b[0]) {
        lemma_lcp_le(a.skip(1), b.skip(1));
    }
}

/// Nothing shares a prefix with the empty word.
pub proof fn lemma_sum_lcp_empty_query(ss: Seq<Seq<char>>, q: Seq<char>)
    requires
        q.len() == 0,
    ensures
        sum_lcp(ss, q) == 0,
    decreases ss.len(),
{
    if ss.len() > 0 {
        lemma_sum_lcp_empty_query(ss.drop_last(), q);
    }
}

/// A score never exceeds the total size of the collection.
pub proof fn lemma_sum_lcp_le_total(ss: Seq<Seq<char>>, q: Seq<char>)
    ensures
        sum_lcp(ss, q) <= total_len(ss),
    decreases ss.len(),
{
    if ss.len() > 0 {
        lemma_sum_lcp_le_total(ss.drop_last(), q);
        lemma_lcp_le(ss.last(), q);
    }
}

/// Appending one entry adds that entry's common-prefix length to a score.
pub proof fn lemma_sum_lcp_push(ss: Seq<Seq<char>>, t: Seq<char>, q: Seq<char>)
    ensures
        sum_lcp(ss.push(t), q) == sum_lcp(ss, q) + lcp(t, q),
{
    assert(ss.push(t).drop_last() =~= ss);
    assert(ss.push(t).last() == t);
}

/// Replacing one entry exchanges exactly that entry's contribution to a
/// score.
pub proof fn lemma_sum_lcp_update(ss: Seq<Seq<char>>, i: int, x: Seq<char>, q: Seq<char>)
    requires
        0 <= i < ss.len(),
    ensures
        sum_lcp(ss.update(i, x), q) + lcp(ss[i], q) == sum_lcp(ss, q) + lcp(x, q),
    decreases ss.len(),
{
    if i == ss.len() - 1 {
        assert(ss.update(i, x).drop_last() =~= ss.drop_last());
        assert(ss.update(i, x).last() == x);
    } else {
        lemma_sum_lcp_update(ss.drop_last(), i, x, q);
        assert(ss.update(i, x).drop_last() =~= ss.drop_last().update(i, x));
        assert(ss.update(i, x).last() == ss.last());
        assert(ss.drop_last()[i] == ss[i]);
    }
}

/// The score of a singleton collection is one common-prefix length.
pub proof fn lemma_sum_lcp_singleton(t: Seq<char>, q: Seq<char>)
    ensures
        sum_lcp(seq![t], q) == lcp(t, q),
{
    assert(seq![t].drop_last() =~= Seq::<Seq<char>>::empty());
    assert(sum_lcp(Seq::<Seq<char>>::empty(), q) == 0);
    assert(seq![t].last() == t);
}

/// How appending one entry moves the per-letter counts, the tails and the
/// total size.
pub proof fn lemma_push_starting(ss: Seq<Seq<char>>, t: Seq<char>, c: int)
    ensures
        count_starting(ss.push(t), c) == count_starting(ss, c) + if starts_at(t, c) {
            1nat
        } else {
            0nat
        },
        tails_starting(ss.push(t), c) == if starts_at(t, c) {
            tails_starting(ss, c).push(t.skip(1))
        } else {
            tails_starting(ss, c)
        },
        total_len(ss.push(t)) == total_len(ss) + t.len(),
{
    assert(ss.push(t).drop_last() =~= ss);
    assert(ss.push(t).last() == t);
}

/// The per-letter counts and tails of a two-entry collection.
pub proof fn lemma_starting_pair(a: Seq<char>, b: Seq<char>, c: int)
    ensures
        count_starting(seq![a, b], c) == (if starts_at(a, c) {
            1nat
        } else {
            0nat
        }) + (if starts_at(b, c) {
            1nat
        } else {
            0nat
        }),
        starts_at(a, c) && starts_at(b, c) ==> tails_starting(seq![a, b], c) =~= seq![
            a.skip(1),
            b.skip(1),
        ],
        starts_at(a, c) && !starts_at(b, c) ==> tails_starting(seq![a, b], c) =~= seq![a.skip(1)],
        !starts_at(a, c) && starts_at(b, c) ==> tails_starting(seq![a, b], c) =~= seq![b.skip(1)],
        !starts_at(a, c) && !starts_at(b, c) ==> tails_starting(seq![a, b], c)
            =~= Seq::<Seq<char>>::empty(),
{
    let e = Seq::<Seq<char>>::empty();
    assert(count_starting(e, c) == 0);
    assert(tails_starting(e, c) =~= Seq::<Seq<char>>::empty());
    assert(e.push(a) =~= seq![a]);
    lemma_push_starting(e, a, c);
    assert(seq![a].push(b) =~= seq![a, b]);
    lemma_push_starting(seq![a], b, c);
}

/// An entry of the collection that starts with slot `c` appears, shortened by
/// that letter, among the tails for `c`.
pub proof fn lemma_tails_contains(ss: Seq<Seq<char>>, c: int, q: Seq<char>)
    requires
        ss.contains(q),
        starts_at(q, c),
    ensures
        count_starting(ss, c) > 0,
        tails_starting(ss, c).contains(q.skip(1)),
    decreases ss.len(),
{
    if ss.len() > 0 {
        if ss.last() == q {
            assert(tails_starting(ss, c).last() == q.skip(1));
        } else {
            let j = choose|j: int| 0 <= j < ss.len() && ss[j] == q;
            assert(ss.drop_last()[j] == q);
            lemma_tails_contains(ss.drop_last(), c, q);
            if starts_at(ss.last(), c) {
                let k = choose|k: int|
                    0 <= k < tails_starting(ss.drop_last(), c).len()
                        && tails_starting(ss.drop_last(), c)[k] == q.skip(1);
                assert(tails_starting(ss, c)[k] == q.skip(1));
            }
        }
    }
}

/// Descending one letter of the query: the score splits into the count of the
/// entries sharing that letter plus the score of the shortened query against
/// their tails.
pub proof fn lemma_sum_lcp_descend(ss: Seq<Seq<char>>, q: Seq<char>)
    requires
        q.len() > 0,
        all_lower(q),
    ensures
        sum_lcp(ss, q) == count_starting(ss, letter_index(q[0])) + sum_lcp(
            tails_starting(ss, letter_index(q[0])),
            q.skip(1),
        ),
    decreases ss.len(),
{
    let c = letter_index(q[0]);
    if ss.len() > 0 {
        lemma_sum_lcp_descend(ss.drop_last(), q);
        let t = ss.last();
        if starts_at(t, c) {
            assert(t[0] == q[0]) by {
                lemma_letter_index_injective(t[0], q[0]);
            }
            assert(lcp(t, q) == 1 + lcp(t.skip(1), q.skip(1)));
            lemma_sum_lcp_push(tails_starting(ss.drop_last(), c), t.skip(1), q.skip(1));
        } else {
            if t.len() > 0 && t[0] == q[0] {
                assert(starts_at(t, c));
            }
            assert(lcp(t, q) == 0);
        }
    }
}

/// Two lowercase letters with the same slot are the same letter.
pub proof fn lemma_letter_index_injective(a: char, b: char)
    requires
        letter_index(a) == letter_index(b),
    ensures
        a == b,
{
    assert(a as u32 == b as u32);
}

/// No entry of `ss` starts with slot `c` exactly when the tails for `c` are
/// empty.
pub proof fn lemma_no_tails(ss: Seq<Seq<char>>, c: int)
    requires
        count_starting(ss, c) == 0,
    ensures
        tails_starting(ss, c) =~= Seq::<Seq<char>>::empty(),
    decreases ss.len(),
{
    if ss.len() > 0 {
        lemma_no_tails(ss.drop_last(), c);
    }
}

/// Per-letter counts are bounded by the total size of the collection.
pub proof fn lemma_count_le_total(ss: Seq<Seq<char>>, c: int)
    ensures
        count_starting(ss, c) <= total_len(ss),
    decreases ss.len(),
{
    if ss.len() > 0 {
        lemma_count_le_total(ss.drop_last(), c);
    }
}

/// Shortening the entries that share a letter shrinks the total size by at
/// least their count.
pub proof fn lemma_tails_total_le(ss: Seq<Seq<char>>, c: int)
    ensures
        total_len(tails_starting(ss, c)) + count_starting(ss, c) <= total_len(ss),
    decreases ss.len(),
{
    if ss.len() > 0 {
        lemma_tails_total_le(ss.drop_last(), c);
        if starts_at(ss.last(), c) {
            assert(tails_starting(ss, c).drop_last() =~= tails_starting(ss.drop_last(), c));
        }
    }
}

/// A prefix of a collection holds at most the collection's total size.
pub proof fn lemma_total_prefix(ss: Seq<Seq<char>>, j: int)
    requires
        0 <= j <= ss.len(),
    ensures
        total_len(ss.subrange(0, j)) <= total_len(ss),
    decreases ss.len() - j,
{
    if j == ss.len() {
        assert(ss.subrange(0, j) =~= ss);
    } else {
        lemma_total_prefix(ss, j + 1);
        assert(ss.subrange(0, j + 1) =~= ss.subrange(0, j).push(ss[j]));
        lemma_push_starting(ss.subrange(0, j), ss[j], 0);
    }
}

/// The tails of lowercase entries are lowercase.
pub proof fn lemma_tails_lower(ss: Seq<Seq<char>>, c: int)
    requires
        all_entries_lower(ss),
    ensures
        all_entries_lower(tails_starting(ss, c)),
    decreases ss.len(),
{
    if ss.len() > 0 {
        assert(all_entries_lower(ss.drop_last())) by {
            assert(forall|j: int|
                0 <= j < ss.drop_last().len() ==> ss.drop_last()[j] == #[trigger] ss[j]);
        }
        lemma_tails_lower(ss.drop_last(), c);
        if starts_at(ss.last(), c) {
            assert(all_lower(ss.last())) by {
                assert(ss[ss.len() - 1] == ss.last());
            }
            assert(all_lower(ss.last().skip(1))) by {
                assert(forall|j: int|
                    0 <= j < ss.last().skip(1).len() ==> ss.last().skip(1)[j] == #[trigger] ss.last()[
                        j + 1
                    ]);
            }
            let tails = tails_starting(ss, c);
            assert(forall|j: int| 0 <= j < tails.len() ==> all_lower(#[trigger] tails[j])) by {
                assert(forall|j: int|
                    0 <= j < tails.len() - 1 ==> tails[j] == #[trigger] tails_starting(
                        ss.drop_last(),
                        c,
                    )[j]);
                assert(tails.last() == ss.last().skip(1));
            }
        }
    }
}

} // verus!
