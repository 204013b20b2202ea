//! The character trie: nodes, edges, insertion and scoring.
//!
//! A node materializes lazily: it stays `Empty` until a first word reaches
//! it, defers that single word as `Pending`, and branches into a 26-slot
//! edge table only when a second word arrives. Each edge counts how many
//! inserted words pass through it. The invariant `inv` ties a node to the
//! collection of word suffixes that reached it, and every contract here is
//! stated against that collection through the model in `scoring`.

use vstd::prelude::*;

use crate::scoring::all_entries_lower;
use crate::scoring::all_lower;
use crate::scoring::count_starting;
use crate::scoring::is_lower_char;
use crate::scoring::lemma_count_le_total;
use crate::scoring::lemma_lcp_self;
use crate::scoring::lemma_letter_index_injective;
use crate::scoring::lemma_no_tails;
use crate::scoring::lemma_push_lower;
use crate::scoring::lemma_push_starting;
use crate::scoring::lemma_skip_lower;
use crate::scoring::lemma_starting_pair;
use crate::scoring::lemma_sum_lcp_descend;
use crate::scoring::lemma_sum_lcp_empty_query;
use crate::scoring::lemma_sum_lcp_singleton;
use crate::scoring::lemma_tails_contains;
use crate::scoring::lemma_tails_lower;
use crate::scoring::lemma_tails_total_le;
use crate::scoring::letter_index;
use crate::scoring::starts_at;
use crate::scoring::sum_lcp;
use crate::scoring::tails_starting;
use crate::scoring::total_len;

verus! {

/// A position in the trie.
///
/// `Empty`: no word has reached this position. `Pending`: exactly one word
/// has, and its remaining suffix is deferred here unexpanded. `Branching`:
/// a 26-slot table, one optional edge per lowercase letter; once a node
/// branches it never goes back.
pub enum Node {
    Empty,
    Pending { suffix: Vec<char> },
    Branching { edges: Vec<Option<Box<Edge>>> },
}

/// A child node together with the number of inserted words whose path
/// passes through this edge.
pub struct Edge {
    pub count: i32,
    pub node: Node,
}

/// The node faithfully represents the collection `ss` of word suffixes that
/// reached it: an `Empty` node has seen none, a `Pending` node exactly the
/// one it defers, and a `Branching` node counts, per letter, the suffixes
/// that continue with that letter, its children representing their tails.
pub open spec fn inv(node: Node, ss: Seq<Seq<char>>) -> bool
    decreases node,
{
    all_entries_lower(ss) && match node {
        Node::Empty => ss.len() == 0,
        Node::Pending { suffix } => ss.len() == 1 && ss[0] == suffix@,
        Node::Branching { edges } => edges@.len() == 26 && forall|c: int|
            0 <= c < 26 ==> edge_ok(#[trigger] edges@[c], ss, c),
    }
}

/// One slot of a branching table is right for `ss`: an absent edge means no
/// suffix continues with that letter, a present edge counts exactly the
/// suffixes that do and its child represents their tails.
pub open spec fn edge_ok(slot: Option<Box<Edge>>, ss: Seq<Seq<char>>, c: int) -> bool
    decreases slot,
{
    match slot {
        None => count_starting(ss, c) == 0,
        Some(e) => e.count as int == count_starting(ss, c) && inv(e.node, tails_starting(ss, c)),
    }
}

impl Default for Node {
    /// A fresh trie position: no word has reached it.
    fn default() -> (n: Node)
        ensures
            n == Node::Empty,
            inv(n, Seq::<Seq<char>>::empty()),
    {
        Node::Empty
    }
}

/// The branching-table slot of a lowercase letter.
fn letter_slot(c: char) -> (idx: usize)
    requires
        is_lower_char(c),
    ensures
        idx as int == letter_index(c),
        idx < 26,
{
    ((c as u32) - ('a' as u32)) as usize
}

/// A branching table with all 26 edges absent.
fn empty_edges() -> (r: Vec<Option<Box<Edge>>>)
    ensures
        r@.len() == 26,
        forall|c: int| 0 <= c < 26 ==> #[trigger] r@[c] is None,
{
    let mut r: Vec<Option<Box<Edge>>> = Vec::new();
    let mut k: usize = 0;
    while k < 26
        invariant
            k <= 26,
            r@.len() == k as int,
            forall|c: int| 0 <= c < k ==> #[trigger] r@[c] is None,
        decreases 26 - k,
    {
        r.push(None);
        k = k + 1;
    }
    r
}

/// An owned copy of the suffix `w[i..]`.
fn copy_suffix(w: &Vec<char>, i: usize) -> (r: Vec<char>)
    requires
        i <= w@.len(),
    ensures
        r@ == w@.skip(i as int),
{
    let mut r: Vec<char> = Vec::new();
    let mut k: usize = i;
    while k < w.len()
        invariant
            i <= k <= w@.len(),
            r@ == w@.subrange(i as int, k as int),
        decreases w@.len() - k,
    {
        let ghost prev = r@;
        r.push(w[k]);
        proof {
            assert(prev.push(w@[k as int]) =~= w@.subrange(i as int, k + 1));
        }
        k = k + 1;
    }
    proof {
        assert(w@.subrange(i as int, w@.len() as int) =~= w@.skip(i as int));
    }
    r
}

/// The node a position takes when a second word reaches it: a branching
/// table holding exactly the two suffixes `t[j..]` and `w[i..]` — the
/// deferred one re-inserted alongside the new one. This transition out of
/// the deferred state happens at most once per position.
fn add_two(t: &Vec<char>, j: usize, w: &Vec<char>, i: usize) -> (n: Node)
    requires
        j <= t@.len(),
        i <= w@.len(),
        all_lower(t@.skip(j as int)),
        all_lower(w@.skip(i as int)),
    ensures
        inv(n, seq![t@.skip(j as int), w@.skip(i as int)]),
        n is Branching,
    decreases t@.len() - j,
{
    let ghost a = t@.skip(j as int);
    let ghost b = w@.skip(i as int);
    proof {
        if j < t@.len() {
            assert(a[0] == t@[j as int]);
        }
        if i < w@.len() {
            assert(b[0] == w@[i as int]);
        }
        let pair = seq![a, b];
        assert forall|k: int| 0 <= k < pair.len() implies all_lower(#[trigger] pair[k]) by {
            if k == 0 {
                assert(pair[k] == a);
            } else {
                assert(pair[k] == b);
            }
        }
        assert(all_entries_lower(pair));
    }
    let mut edges = empty_edges();
    if j < t.len() && i < w.len() && t[j] == w[i] {
        // Both suffixes continue with the same letter: one edge carries both.
        let idx = letter_slot(t[j]);
        proof {
            lemma_skip_lower(t@, j as int, j + 1);
            lemma_skip_lower(w@, i as int, i + 1);
        }
        let child = add_two(t, j + 1, w, i + 1);
        edges.set(idx, Some(Box::new(Edge { count: 2, node: child })));
        proof {
            assert(t@.skip(j + 1) =~= a.skip(1));
            assert(w@.skip(i + 1) =~= b.skip(1));
            assert forall|c: int| 0 <= c < 26 implies edge_ok(
                #[trigger] edges@[c],
                seq![a, b],
                c,
            ) by {
                lemma_starting_pair(a, b, c);
                if c == idx {
                    assert(starts_at(a, c) && starts_at(b, c));
                    assert(tails_starting(seq![a, b], c) == seq![a.skip(1), b.skip(1)]);
                } else {
                    if starts_at(a, c) {
                        assert(c == letter_index(a[0]));
                    }
                    if starts_at(b, c) {
                        assert(c == letter_index(b[0]));
                    }
                    assert(count_starting(seq![a, b], c) == 0);
                }
            }
        }
        Node::Branching { edges }
    } else {
        // The suffixes diverge here (or one of them ends): each non-empty
        // one gets its own edge, deferring its tail.
        if j < t.len() {
            let idx_a = letter_slot(t[j]);
            proof {
                lemma_skip_lower(t@, j as int, j + 1);
            }
            let suffix_a = copy_suffix(t, j + 1);
            proof {
                assert(suffix_a@ =~= a.skip(1));
            }
            edges.set(idx_a, Some(Box::new(Edge { count: 1, node: Node::Pending { suffix: suffix_a } })));
        }
        if i < w.len() {
            let idx_b = letter_slot(w[i]);
            proof {
                lemma_skip_lower(w@, i as int, i + 1);
                if j < t@.len() {
                    // Distinct first letters occupy distinct slots.
                    if letter_index(a[0]) == letter_index(b[0]) {
                        lemma_letter_index_injective(a[0], b[0]);
                    }
                }
            }
            let suffix_b = copy_suffix(w, i + 1);
            proof {
                assert(suffix_b@ =~= b.skip(1));
            }
            edges.set(idx_b, Some(Box::new(Edge { count: 1, node: Node::Pending { suffix: suffix_b } })));
        }
        proof {
            assert forall|c: int| 0 <= c < 26 implies edge_ok(
                #[trigger] edges@[c],
                seq![a, b],
                c,
            ) by {
                lemma_starting_pair(a, b, c);
                if starts_at(a, c) && starts_at(b, c) {
                    lemma_letter_index_injective(a[0], b[0]);
                }
            }
        }
        Node::Branching { edges }
    }
}

impl Edge {
    /// Score descent across this edge: every word counted on the edge
    /// shares one more prefix position with the query, so the counter joins
    /// the running total before the child is consulted.
    pub fn score_acc(
        &self,
        w: &Vec<char>,
        i: usize,
        acc: i32,
        Ghost(ssc): Ghost<Seq<Seq<char>>>,
    ) -> (r: i32)
        requires
            inv(self.node, ssc),
            0 <= self.count,
            i <= w@.len(),
            all_lower(w@.skip(i as int)),
            ssc.contains(w@.skip(i as int)),
            0 <= acc,
            acc + self.count + sum_lcp(ssc, w@.skip(i as int)) <= i32::MAX,
        ensures
            r == acc + self.count + sum_lcp(ssc, w@.skip(i as int)),
        decreases w@.len() - i, 2int,
    {
        self.node.score_acc(w, i, acc + self.count, Ghost(ssc))
    }

    /// One more word passes this edge: count it, then insert its remaining
    /// suffix below. The counter moves before the descent, so it always
    /// reads "number of insertions that traversed this edge".
    pub fn add(&mut self, w: &Vec<char>, i: usize, Ghost(ssc): Ghost<Seq<Seq<char>>>)
        requires
            inv(old(self).node, ssc),
            0 <= old(self).count < i32::MAX,
            i <= w@.len(),
            all_lower(w@.skip(i as int)),
            total_len(ssc) + (w@.len() - i) <= i32::MAX,
        ensures
            final(self).count == old(self).count + 1,
            inv(final(self).node, ssc.push(w@.skip(i as int))),
        decreases w@.len() - i, 2int,
    {
        self.count = self.count + 1;
        self.node.add(w, i, Ghost(ssc));
    }
}

impl Node {
    /// The score the query suffix `w[i..]` accumulates from this position
    /// down, on top of `acc`: the sum, over the collection of word suffixes
    /// represented here, of each one's longest common prefix with the query.
    ///
    /// Scoring never mutates the trie — the receiver is shared — and the
    /// result is a function of the represented collection and the query
    /// alone, so repeating a query always returns the same score.
    pub fn score_acc(
        &self,
        w: &Vec<char>,
        i: usize,
        acc: i32,
        Ghost(ss): Ghost<Seq<Seq<char>>>,
    ) -> (r: i32)
        requires
            inv(*self, ss),
            i <= w@.len(),
            all_lower(w@.skip(i as int)),
            ss.contains(w@.skip(i as int)),
            0 <= acc,
            acc + sum_lcp(ss, w@.skip(i as int)) <= i32::MAX,
        ensures
            r == acc + sum_lcp(ss, w@.skip(i as int)),
        decreases w@.len() - i, 1int,
    {
        let ghost s = w@.skip(i as int);
        match self {
            Node::Empty => acc,
            Node::Pending { suffix } => {
                // Exactly one word suffix is deferred here, and the query's
                // own suffix is among the represented ones, so they agree:
                // the whole deferred suffix is common prefix.
                proof {
                    let k = choose|k: int| 0 <= k < ss.len() && ss[k] == s;
                    assert(ss[0] == suffix@);
                    assert(ss =~= seq![suffix@]);
                    lemma_sum_lcp_singleton(suffix@, s);
                    lemma_lcp_self(suffix@);
                }
                acc + (suffix.len() as i32)
            }
            Node::Branching { edges } => {
                if i < w.len() {
                    proof {
                        assert(s[0] == w@[i as int]);
                        assert(is_lower_char(s[0]));
                    }
                    let idx = letter_slot(w[i]);
                    proof {
                        assert(starts_at(s, idx as int));
                        lemma_sum_lcp_descend(ss, s);
                        lemma_tails_contains(ss, idx as int, s);
                        lemma_tails_lower(ss, idx as int);
                        lemma_skip_lower(w@, i as int, i + 1);
                        assert(s.skip(1) =~= w@.skip(i + 1));
                    }
                    match &edges[idx] {
                        Some(e) => e.score_acc(
                            w,
                            i + 1,
                            acc,
                            Ghost(tails_starting(ss, idx as int)),
                        ),
                        None => {
                            // The query is itself a represented suffix, so
                            // an edge for its first letter must exist.
                            proof {
                                assert(false);
                            }
                            acc
                        }
                    }
                } else {
                    proof {
                        lemma_sum_lcp_empty_query(ss, s);
                    }
                    acc
                }
            }
        }
    }

    /// The full prefix score of the word `w` against the collection the
    /// trie was built from.
    pub fn score(&self, w: &Vec<char>, Ghost(ss): Ghost<Seq<Seq<char>>>) -> (r: i32)
        requires
            inv(*self, ss),
            all_lower(w@),
            ss.contains(w@),
            sum_lcp(ss, w@) <= i32::MAX,
        ensures
            r == sum_lcp(ss, w@),
    {
        proof {
            assert(w@.skip(0) =~= w@);
        }
        self.score_acc(w, 0, 0, Ghost(ss))
    }

    /// Insert the word suffix `w[i..]` at this position.
    ///
    /// An `Empty` node defers the suffix; a `Pending` node branches out,
    /// re-inserting the deferred suffix next to the new one; a `Branching`
    /// node descends along the suffix's first letter, or stops if the
    /// suffix is spent.
    pub fn add(&mut self, w: &Vec<char>, i: usize, Ghost(ss): Ghost<Seq<Seq<char>>>)
        requires
            inv(*old(self), ss),
            i <= w@.len(),
            all_lower(w@.skip(i as int)),
            total_len(ss) + (w@.len() - i) <= i32::MAX,
        ensures
            inv(*final(self), ss.push(w@.skip(i as int))),
        decreases w@.len() - i, 1int,
    {
        let ghost s = w@.skip(i as int);
        let mut taken = Node::Empty;
        core::mem::swap(self, &mut taken);
        proof {
            lemma_push_lower(ss, s);
        }
        match taken {
            Node::Empty => {
                *self = Node::Pending { suffix: copy_suffix(w, i) };
            }
            Node::Pending { suffix } => {
                proof {
                    assert(ss[0] == suffix@);
                    assert(suffix@.skip(0) =~= suffix@);
                }
                let branched = add_two(&suffix, 0, w, i);
                proof {
                    assert(ss.push(s) =~= seq![suffix@.skip(0), s]);
                }
                *self = branched;
            }
            Node::Branching { mut edges } => {
                let ghost orig = edges@;
                if i < w.len() {
                    proof {
                        assert(s[0] == w@[i as int]);
                        assert(is_lower_char(s[0]));
                    }
                    let idx = letter_slot(w[i]);
                    proof {
                        assert(starts_at(s, idx as int));
                        lemma_tails_lower(ss, idx as int);
                        lemma_count_le_total(ss, idx as int);
                        lemma_tails_total_le(ss, idx as int);
                        lemma_skip_lower(w@, i as int, i + 1);
                        assert(s.skip(1) =~= w@.skip(i + 1));
                        assert(edge_ok(orig[idx as int], ss, idx as int));
                    }
                    let mut slot: Option<Box<Edge>> = None;
                    edges.set_and_swap(idx, &mut slot);
                    let mut edge: Edge = match slot {
                        Some(boxed) => *boxed,
                        None => Edge { count: 0, node: Node::Empty },
                    };
                    proof {
                        if orig[idx as int] is None {
                            lemma_no_tails(ss, idx as int);
                        }
                        assert(edge.count as int == count_starting(ss, idx as int));
                        assert(inv(edge.node, tails_starting(ss, idx as int)));
                    }
                    edge.add(w, i + 1, Ghost(tails_starting(ss, idx as int)));
                    edges.set(idx, Some(Box::new(edge)));
                    proof {
                        assert forall|c: int| 0 <= c < 26 implies edge_ok(
                            #[trigger] edges@[c],
                            ss.push(s),
                            c,
                        ) by {
                            lemma_push_starting(ss, s, c);
                            if c != idx as int {
                                assert(edges@[c] == orig[c]);
                                assert(edge_ok(orig[c], ss, c));
                                if starts_at(s, c) {
                                    lemma_letter_index_injective(s[0], w@[i as int]);
                                }
                                assert(!starts_at(s, c));
                            }
                        }
                    }
                } else {
                    proof {
                        assert(s.len() == 0);
                        assert forall|c: int| 0 <= c < 26 implies edge_ok(
                            #[trigger] edges@[c],
                            ss.push(s),
                            c,
                        ) by {
                            assert(edge_ok(orig[c], ss, c));
                            lemma_push_starting(ss, s, c);
                        }
                    }
                }
                *self = Node::Branching { edges };
            }
        }
    }
}

} // verus!
