//! A trie of word sequences that counts how often each prefix was seen, used
//! to suggest the words that most often follow a given sequence.
use vstd::prelude::*;

verus! {

/// Sequences longer than this are cut to this many words.
pub const DEFAULT_MAX_DEPTH: usize = 5;

/// One word in the trie, with how many recorded sequences passed through it.
pub struct MarkovNode {
    pub value: String,
    pub incoming_count: usize,
    pub transitions: MarkovTransitions,
}

/// The words that may follow a node.
pub struct MarkovTransitions {
    pub transitions: Vec<MarkovNode>,
}

/// Word sequences, as the trie sees them.
pub type Path = Seq<Seq<char>>;

/// The position of the child holding `w`, or -1.
pub open spec fn child_index(t: MarkovTransitions, w: Seq<char>) -> int {
    if exists|i: int| 0 <= i < t.transitions@.len() && (#[trigger] t.transitions@[i]).value@ == w {
        choose|i: int| 0 <= i < t.transitions@.len() && (#[trigger] t.transitions@[i]).value@ == w
    } else {
        -1
    }
}

/// The node reached by following `path` from `t`.
pub open spec fn node_at(t: MarkovTransitions, path: Path) -> Option<MarkovNode>
    decreases path.len(),
{
    if path.len() == 0 {
        None
    } else {
        let i = child_index(t, path[0]);
        if i < 0 {
            None
        } else if path.len() == 1 {
            Some(t.transitions@[i])
        } else {
            node_at(t.transitions@[i].transitions, path.drop_first())
        }
    }
}

/// How many recorded sequences started with `path` (0 when none did).
pub open spec fn count_of(t: MarkovTransitions, path: Path) -> nat {
    match node_at(t, path) {
        Some(n) => n.incoming_count as nat,
        None => 0,
    }
}

/// A count is held in a `usize`.
pub proof fn lemma_count_fits(t: MarkovTransitions, p: Path)
    ensures
        count_of(t, p) <= usize::MAX,
{
}

/// The children of one node hold distinct words.
pub open spec fn values_unique(t: MarkovTransitions) -> bool {
    forall|i: int, j: int|
        0 <= i < j < t.transitions@.len() ==> (#[trigger] t.transitions@[i]).value@
            != (#[trigger] t.transitions@[j]).value@
}

/// The children of one node hold distinct words, each seen at least once.
pub open spec fn level_wf(t: MarkovTransitions) -> bool {
    &&& values_unique(t)
    &&& forall|i: int|
        0 <= i < t.transitions@.len() ==> (#[trigger] t.transitions@[i]).incoming_count >= 1
}

/// Every node of the trie is well formed.
pub open spec fn trie_wf(t: MarkovTransitions) -> bool {
    &&& level_wf(t)
    &&& forall|p: Path| #[trigger] node_at(t, p) is Some ==> level_wf(node_at(t, p)->0.transitions)
}


/// The words of `seq` that one level of insertion records: it stops at a
/// stop word, and goes at most `remaining` levels below the first word.
pub open spec fn recorded(seq: Path, stop_words: Seq<Seq<char>>, remaining: nat) -> Path
    decreases seq.len(),
{
    if seq.len() == 0 || stop_words.contains(seq[0]) {
        Seq::empty()
    } else if remaining >= 1 && seq.len() > 1 {
        seq![seq[0]] + recorded(seq.drop_first(), stop_words, (remaining - 1) as nat)
    } else {
        seq![seq[0]]
    }
}

/// `p` is a non-empty prefix of `seq`.
pub open spec fn is_nonempty_prefix(p: Path, seq: Path) -> bool {
    0 < p.len() <= seq.len() && p == seq.subrange(0, p.len() as int)
}

proof fn lemma_child_index(t: MarkovTransitions, i: int)
    requires
        values_unique(t),
        0 <= i < t.transitions@.len(),
    ensures
        child_index(t, t.transitions@[i].value@) == i,
{
    let w = t.transitions@[i].value@;
    assert(exists|k: int| 0 <= k < t.transitions@.len() && (#[trigger] t.transitions@[k]).value@ == w);
    let c = child_index(t, w);
    if c != i {
        if c < i {
            assert(t.transitions@[c].value@ != t.transitions@[i].value@);
        } else {
            assert(t.transitions@[i].value@ != t.transitions@[c].value@);
        }
    }
}

proof fn lemma_child_index_absent(t: MarkovTransitions, w: Seq<char>)
    requires
        forall|k: int| 0 <= k < t.transitions@.len() ==> (#[trigger] t.transitions@[k]).value@ != w,
    ensures
        child_index(t, w) == -1,
{
}

/// Following a path below a child is following the longer path from the
/// parent.
proof fn lemma_node_at_child(t: MarkovTransitions, i: int, q: Path)
    requires
        level_wf(t),
        0 <= i < t.transitions@.len(),
        q.len() > 0,
    ensures
        node_at(t.transitions@[i].transitions, q) == node_at(
            t,
            seq![t.transitions@[i].value@] + q,
        ),
{
    let p = seq![t.transitions@[i].value@] + q;
    lemma_child_index(t, i);
    assert(p[0] == t.transitions@[i].value@);
    assert(p.drop_first() =~= q);
}

proof fn lemma_child_wf(t: MarkovTransitions, i: int)
    requires
        trie_wf(t),
        0 <= i < t.transitions@.len(),
    ensures
        trie_wf(t.transitions@[i].transitions),
{
    let c = t.transitions@[i].transitions;
    let w = t.transitions@[i].value@;
    lemma_child_index(t, i);
    assert(node_at(t, seq![w]) == Some(t.transitions@[i]));
    assert(level_wf(c));
    assert forall|q: Path| #[trigger] node_at(c, q) is Some implies level_wf(node_at(c, q)->0.transitions) by {
        lemma_node_at_child(t, i, q);
        assert(node_at(t, seq![w] + q) is Some);
    }
}

/// Replacing (or adding) the child holding `w` changes only what lies below
/// `w`.
proof fn lemma_node_at_replace(
    t: MarkovTransitions,
    t2: MarkovTransitions,
    n2: MarkovNode,
    i2: int,
    p: Path,
)
    requires
        values_unique(t),
        values_unique(t2),
        0 <= i2 < t2.transitions@.len(),
        t2.transitions@[i2] == n2,
        forall|k: int|
            0 <= k < t.transitions@.len() && (#[trigger] t.transitions@[k]).value@ != n2.value@
                ==> exists|k2: int|
                0 <= k2 < t2.transitions@.len() && #[trigger] t2.transitions@[k2]
                    == t.transitions@[k],
        forall|k2: int|
            0 <= k2 < t2.transitions@.len() && (#[trigger] t2.transitions@[k2]).value@
                != n2.value@ ==> exists|k: int|
                0 <= k < t.transitions@.len() && #[trigger] t.transitions@[k]
                    == t2.transitions@[k2],
    ensures
        node_at(t2, p) == (if p.len() > 0 && p[0] == n2.value@ {
            if p.len() == 1 {
                Some(n2)
            } else {
                node_at(n2.transitions, p.drop_first())
            }
        } else {
            node_at(t, p)
        }),
{
    if p.len() > 0 {
        let x = p[0];
        if x == n2.value@ {
            lemma_child_index(t2, i2);
        } else {
            let ci = child_index(t, x);
            if ci >= 0 {
                let k2 = choose|k2: int|
                    0 <= k2 < t2.transitions@.len() && #[trigger] t2.transitions@[k2]
                        == t.transitions@[ci];
                lemma_child_index(t2, k2);
            } else {
                if exists|k2: int| 0 <= k2 < t2.transitions@.len() && (#[trigger] t2.transitions@[k2]).value@ == x {
                    let k2 = choose|k2: int|
                        0 <= k2 < t2.transitions@.len() && (#[trigger] t2.transitions@[k2]).value@
                            == x;
                    let k = choose|k: int|
                        0 <= k < t.transitions@.len() && #[trigger] t.transitions@[k]
                            == t2.transitions@[k2];
                    assert(t.transitions@[k].value@ == x);
                    assert(false);
                }
            }
        }
    }
}

/// The words of a vector of strings.
pub open spec fn words_of(v: Seq<String>) -> Path {
    v.map_values(|s: String| s@)
}

/// Whether `w` is one of the stop words.
fn contains_stop_word(words: &Vec<String>, w: &String) -> (r: bool)
    ensures
        r == words_of(words@).contains(w@),
{
    let mut k: usize = 0;
    while k < words.len()
        invariant
            k <= words@.len(),
            forall|j: int| 0 <= j < k ==> words@[j]@ != w@,
        decreases words@.len() - k,
    {
        if words[k] == *w {
            proof {
                assert(words_of(words@)[k as int] == w@);
            }
            return true;
        }
        k = k + 1;
    }
    proof {
        if words_of(words@).contains(w@) {
            let j = choose|j: int| 0 <= j < words_of(words@).len() && words_of(words@)[j] == w@;
            assert(words@[j]@ == w@);
        }
    }
    false
}

proof fn lemma_prefix_cons(w: Seq<char>, q: Path, rest: Path)
    requires
        q.len() > 0,
    ensures
        is_nonempty_prefix(seq![w] + q, seq![w] + rest) == is_nonempty_prefix(q, rest),
{
    let p = seq![w] + q;
    let rec = seq![w] + rest;
    if q.len() <= rest.len() {
        assert(rec.subrange(0, p.len() as int) =~= seq![w] + rest.subrange(0, q.len() as int));
        if p == rec.subrange(0, p.len() as int) {
            assert(q =~= p.drop_first());
            assert(rest.subrange(0, q.len() as int) =~= rec.subrange(0, p.len() as int).drop_first());
        }
        if q == rest.subrange(0, q.len() as int) {
            assert(p =~= rec.subrange(0, p.len() as int));
        }
    }
}

/// What inserting an updated child does to the counts and the shape of the
/// trie.
proof fn lemma_insert_effect(
    old_t: MarkovTransitions,
    t2: MarkovTransitions,
    old_node: MarkovNode,
    new_node: MarkovNode,
    index: int,
    existed: bool,
    rest: Path,
)
    requires
        trie_wf(old_t),
        existed ==> 0 <= index < old_t.transitions@.len() && old_t.transitions@[index] == old_node
            && t2.transitions@ == old_t.transitions@.update(index, new_node),
        !existed ==> index == old_t.transitions@.len() && t2.transitions@
            == old_t.transitions@.push(new_node) && old_node.incoming_count == 0
            && old_node.transitions.transitions@.len() == 0 && forall|k: int|
            0 <= k < old_t.transitions@.len() ==> (#[trigger] old_t.transitions@[k]).value@
                != old_node.value@,
        new_node.value@ == old_node.value@,
        new_node.incoming_count == old_node.incoming_count + 1,
        trie_wf(new_node.transitions),
        forall|q: Path|
            #[trigger] count_of(new_node.transitions, q) == count_of(old_node.transitions, q) + (
            if is_nonempty_prefix(q, rest) {
                1int
            } else {
                0int
            }),
    ensures
        trie_wf(t2),
        forall|p: Path|
            #[trigger] count_of(t2, p) == count_of(old_t, p) + (if is_nonempty_prefix(
                p,
                seq![old_node.value@] + rest,
            ) {
                1int
            } else {
                0int
            }),
{
    let w = old_node.value@;
    let rec = seq![w] + rest;
    assert(t2.transitions@[index] == new_node);
    if existed {
        lemma_child_index(old_t, index);
        assert(node_at(old_t, seq![w]) == Some(old_node));
    } else {
        lemma_child_index_absent(old_t, w);
    }
    assert(values_unique(t2)) by {
        assert forall|a: int, b: int|
            0 <= a < b < t2.transitions@.len() implies (#[trigger] t2.transitions@[a]).value@
            != (#[trigger] t2.transitions@[b]).value@ by {
            if a != index && b != index {
                assert(t2.transitions@[a] == old_t.transitions@[a]);
                assert(t2.transitions@[b] == old_t.transitions@[b]);
            } else if a == index {
                assert(t2.transitions@[b] == old_t.transitions@[b]);
            } else {
                assert(t2.transitions@[a] == old_t.transitions@[a]);
            }
        }
    }
    assert forall|k: int|
        0 <= k < old_t.transitions@.len() && (#[trigger] old_t.transitions@[k]).value@
            != new_node.value@ implies exists|k2: int|
        0 <= k2 < t2.transitions@.len() && #[trigger] t2.transitions@[k2]
            == old_t.transitions@[k] by {
        assert(t2.transitions@[k] == old_t.transitions@[k]);
    }
    assert forall|k2: int|
        0 <= k2 < t2.transitions@.len() && (#[trigger] t2.transitions@[k2]).value@
            != new_node.value@ implies exists|k: int|
        0 <= k < old_t.transitions@.len() && #[trigger] old_t.transitions@[k]
            == t2.transitions@[k2] by {
        assert(t2.transitions@[k2] == old_t.transitions@[k2]);
    }
    assert forall|p: Path|
        #[trigger] count_of(t2, p) == count_of(old_t, p) + (if is_nonempty_prefix(p, rec) {
            1int
        } else {
            0int
        }) by {
        lemma_node_at_replace(old_t, t2, new_node, index, p);
        if p.len() > 0 && p[0] == w {
            if p.len() == 1 {
                assert(p =~= seq![w]);
                assert(rec.subrange(0, 1) =~= seq![w]);
                assert(is_nonempty_prefix(p, rec));
                assert(count_of(t2, p) == new_node.incoming_count);
                assert(count_of(old_t, p) == old_node.incoming_count);
            } else {
                let q = p.drop_first();
                assert(p =~= seq![w] + q);
                if existed {
                    lemma_node_at_child(old_t, index, q);
                } else {
                    assert(node_at(old_t, p) is None);
                    assert(node_at(old_node.transitions, q) is None);
                }
                lemma_prefix_cons(w, q, rest);
                assert(count_of(t2, p) == count_of(new_node.transitions, q));
                assert(count_of(old_t, p) == count_of(old_node.transitions, q));
            }
        } else if p.len() > 0 {
            assert(rec[0] == w);
            if is_nonempty_prefix(p, rec) {
                assert(p[0] == rec.subrange(0, p.len() as int)[0]);
            }
        }
    }
    assert(level_wf(t2)) by {
        assert forall|k: int| 0 <= k < t2.transitions@.len() implies (
        #[trigger] t2.transitions@[k]).incoming_count >= 1 by {
            if k != index {
                assert(t2.transitions@[k] == old_t.transitions@[k]);
            }
        }
    }
    assert forall|p: Path| #[trigger] node_at(t2, p) is Some implies level_wf(
        node_at(t2, p)->0.transitions,
    ) by {
        lemma_node_at_replace(old_t, t2, new_node, index, p);
        if p.len() > 0 && p[0] == w && p.len() > 1 {
            assert(node_at(new_node.transitions, p.drop_first()) is Some);
        }
    }
}

impl MarkovTransitions {
    /// The position of the child holding `w`.
    fn find_child(&self, w: &String) -> (r: Option<usize>)
        ensures
            match r {
                Some(i) => i < self.transitions@.len() && self.transitions@[i as int].value@ == w@,
                None => forall|k: int|
                    0 <= k < self.transitions@.len() ==> (#[trigger] self.transitions@[k]).value@
                        != w@,
            },
    {
        let mut k: usize = 0;
        while k < self.transitions.len()
            invariant
                k <= self.transitions@.len(),
                forall|j: int| 0 <= j < k ==> (#[trigger] self.transitions@[j]).value@ != w@,
            decreases self.transitions@.len() - k,
        {
            if self.transitions[k].value == *w {
                return Some(k);
            }
            k = k + 1;
        }
        None
    }

    /// Records `sequence[start..]` below this node (see `recorded`).
    fn add_sequence(
        &mut self,
        sequence: &Vec<String>,
        start: usize,
        stop_words: &Vec<String>,
        remaining_depth: usize,
    )
        requires
            trie_wf(*old(self)),
            start < sequence@.len(),
            forall|p: Path|
                is_nonempty_prefix(
                    p,
                    recorded(
                        words_of(sequence@).subrange(start as int, sequence@.len() as int),
                        words_of(stop_words@),
                        remaining_depth as nat,
                    ),
                ) ==> #[trigger] count_of(*old(self), p) < usize::MAX,
        ensures
            trie_wf(*final(self)),
            forall|p: Path|
                #[trigger] count_of(*final(self), p) == count_of(*old(self), p) + (if is_nonempty_prefix(
                    p,
                    recorded(
                        words_of(sequence@).subrange(start as int, sequence@.len() as int),
                        words_of(stop_words@),
                        remaining_depth as nat,
                    ),
                ) {
                    1int
                } else {
                    0int
                }),
        decreases sequence@.len() - start,
    {
        let ghost seqv = words_of(sequence@).subrange(start as int, sequence@.len() as int);
        let ghost stop = words_of(stop_words@);
        let ghost rec = recorded(seqv, stop, remaining_depth as nat);
        let ghost old_t = *self;
        let next_value = &sequence[start];
        proof {
            assert(seqv[0] == next_value@);
        }
        if contains_stop_word(stop_words, next_value) {
            proof {
                assert(rec.len() == 0);
            }
            return;
        }
        let found = self.find_child(next_value);
        let mut node;
        let index;
        match found {
            Some(i) => {
                node = self.transitions.remove(i);
                index = i;
            },
            None => {
                node = MarkovNode {
                    value: next_value.clone(),
                    incoming_count: 0,
                    transitions: MarkovTransitions { transitions: Vec::new() },
                };
                index = self.transitions.len();
            },
        }
        let ghost old_node = node;
        let ghost w = next_value@;
        let go_deeper = remaining_depth >= 1 && sequence.len() - start > 1;
        let ghost rest = if go_deeper {
            recorded(seqv.drop_first(), stop, (remaining_depth - 1) as nat)
        } else {
            Seq::empty()
        };
        proof {
            assert(seq![w] =~= rec.subrange(0, 1));
            assert(is_nonempty_prefix(seq![w], rec));
            assert(rec =~= seq![w] + rest);
            match found {
                Some(i) => {
                    lemma_child_index(old_t, i as int);
                    assert(node_at(old_t, seq![w]) == Some(old_node));
                    lemma_child_wf(old_t, i as int);
                },
                None => {
                    lemma_child_index_absent(old_t, w);
                    assert(node_at(old_t, seq![w]) is None);
                    assert(trie_wf(old_node.transitions));
                },
            }
            assert(count_of(old_t, seq![w]) < usize::MAX);
            if go_deeper {
                assert(seqv.drop_first() =~= words_of(sequence@).subrange(
                    start + 1,
                    sequence@.len() as int,
                ));
            }
        }
        node.incoming_count = node.incoming_count + 1;
        if go_deeper {
            proof {
                assert forall|q: Path| is_nonempty_prefix(q, rest) implies #[trigger] count_of(
                    old_node.transitions,
                    q,
                ) < usize::MAX by {
                    let p = seq![w] + q;
                    assert(p.drop_first() =~= q);
                    lemma_prefix_cons(w, q, rest);
                    assert(count_of(old_t, p) < usize::MAX);
                    match found {
                        Some(i) => {
                            lemma_node_at_child(old_t, i as int, q);
                        },
                        None => {
                            assert(node_at(old_t, p) is None);
                        },
                    }
                }
            }
            node.transitions.add_sequence(sequence, start + 1, stop_words, remaining_depth - 1);
        }
        let ghost new_node = node;
        self.transitions.insert(index, node);
        proof {
            match found {
                Some(i) => {
                    assert(self.transitions@ =~= old_t.transitions@.update(i as int, new_node));
                },
                None => {
                    assert(self.transitions@ =~= old_t.transitions@.push(new_node));
                },
            }
            lemma_insert_effect(old_t, *self, old_node, new_node, index as int, found is Some, rest);
        }
    }
}

/// Following `path` then one more word.
proof fn lemma_node_at_push(t: MarkovTransitions, path: Path, w: Seq<char>)
    requires
        path.len() > 0,
    ensures
        node_at(t, path.push(w)) == (match node_at(t, path) {
            Some(n) => node_at(n.transitions, seq![w]),
            None => None,
        }),
    decreases path.len(),
{
    let p2 = path.push(w);
    assert(p2[0] == path[0]);
    let i = child_index(t, path[0]);
    if i >= 0 {
        if path.len() == 1 {
            assert(p2.drop_first() =~= seq![w]);
        } else {
            assert(p2.drop_first() =~= path.drop_first().push(w));
            lemma_node_at_push(t.transitions@[i].transitions, path.drop_first(), w);
        }
    }
}

/// The children below `path`, by how often they were seen.
proof fn lemma_children_at(t: MarkovTransitions, path: Path, n: MarkovNode, w: Seq<char>)
    requires
        path.len() > 0,
        node_at(t, path) == Some(n),
        level_wf(n.transitions),
    ensures
        count_of(t, path.push(w)) > 0 <==> exists|k: int|
            0 <= k < n.transitions.transitions@.len()
                && (#[trigger] n.transitions.transitions@[k]).value@ == w,
        forall|k: int|
            0 <= k < n.transitions.transitions@.len() && (#[trigger] n.transitions.transitions@[k]).value@
                == w ==> count_of(t, path.push(w)) == n.transitions.transitions@[k].incoming_count,
{
    lemma_node_at_push(t, path, w);
    assert forall|k: int|
        0 <= k < n.transitions.transitions@.len() && (#[trigger] n.transitions.transitions@[k]).value@
            == w implies count_of(t, path.push(w)) == n.transitions.transitions@[k].incoming_count by {
        lemma_child_index(n.transitions, k);
    }
}

/// The same for the first word of a path.
proof fn lemma_children_at_root(t: MarkovTransitions, w: Seq<char>)
    requires
        level_wf(t),
    ensures
        count_of(t, seq![w]) > 0 <==> exists|k: int|
            0 <= k < t.transitions@.len() && (#[trigger] t.transitions@[k]).value@ == w,
        forall|k: int|
            0 <= k < t.transitions@.len() && (#[trigger] t.transitions@[k]).value@ == w
                ==> count_of(t, seq![w]) == t.transitions@[k].incoming_count,
{
    assert forall|k: int|
        0 <= k < t.transitions@.len() && (#[trigger] t.transitions@[k]).value@ == w implies count_of(
        t,
        seq![w],
    ) == t.transitions@[k].incoming_count by {
        lemma_child_index(t, k);
    }
}

/// The child words of `t` ordered by count, highest first: `order` holds
/// each child position once.
pub open spec fn ordered_by_count(t: MarkovTransitions, order: Seq<usize>) -> bool {
    &&& order.len() == t.transitions@.len()
    &&& forall|j: int| 0 <= j < order.len() ==> (#[trigger] order[j]) < t.transitions@.len()
    &&& forall|i: int, j: int| 0 <= i < j < order.len() ==> order[i] != order[j]
    &&& forall|i: int, j: int|
        0 <= i < j < order.len() ==> t.transitions@[order[i] as int].incoming_count
            >= t.transitions@[order[j] as int].incoming_count
}

impl MarkovTransitions {
    /// The node reached by following `sequence[start..]`.
    fn find_node<'a>(&'a self, sequence: &Vec<String>, start: usize) -> (r: Option<&'a MarkovNode>)
        requires
            start < sequence@.len(),
            trie_wf(*self),
        ensures
            match r {
                Some(n) => node_at(
                    *self,
                    words_of(sequence@).subrange(start as int, sequence@.len() as int),
                ) == Some(*n),
                None => node_at(
                    *self,
                    words_of(sequence@).subrange(start as int, sequence@.len() as int),
                ) is None,
            },
        decreases sequence@.len() - start,
    {
        let ghost path = words_of(sequence@).subrange(start as int, sequence@.len() as int);
        let next_value = &sequence[start];
        proof {
            assert(path[0] == next_value@);
        }
        match self.find_child(next_value) {
            Some(i) => {
                let next_node = &self.transitions[i];
                if sequence.len() - start == 1 {
                    proof {
                        lemma_child_index_any(*self, next_value@, i as int);
                    }
                    Some(next_node)
                } else {
                    proof {
                        lemma_child_index_any(*self, next_value@, i as int);
                        lemma_child_wf(*self, i as int);
                        assert(path.drop_first() =~= words_of(sequence@).subrange(
                            start + 1,
                            sequence@.len() as int,
                        ));
                    }
                    next_node.transitions.find_node(sequence, start + 1)
                }
            },
            None => None,
        }
    }

    /// The child words, most often seen first (ties keep their order).
    fn gather_transitions(&self) -> (r: Vec<String>)
        ensures
            exists|order: Seq<usize>|
                ordered_by_count(*self, order) && r@.len() == order.len() && forall|j: int|
                    0 <= j < r@.len() ==> #[trigger] r@[j]@
                        == self.transitions@[order[j] as int].value@,
    {
        let n = self.transitions.len();
        let mut order: Vec<usize> = Vec::new();
        let mut k: usize = 0;
        while k < n
            invariant
                n == self.transitions@.len(),
                k <= n,
                order@.len() == k,
                forall|j: int| 0 <= j < order@.len() ==> (#[trigger] order@[j]) < k,
                forall|i: int, j: int| 0 <= i < j < order@.len() ==> order@[i] != order@[j],
                forall|i: int, j: int|
                    0 <= i < j < order@.len() ==> self.transitions@[order@[i] as int].incoming_count
                        >= self.transitions@[order@[j] as int].incoming_count,
            decreases n - k,
        {
            let count = self.transitions[k].incoming_count;
            let mut pos: usize = 0;
            while pos < order.len() && self.transitions[order[pos]].incoming_count >= count
                invariant
                    pos <= order@.len(),
                    n == self.transitions@.len(),
                    forall|j: int| 0 <= j < order@.len() ==> (#[trigger] order@[j]) < k,
                    k < n,
                    count == self.transitions@[k as int].incoming_count,
                    forall|j: int|
                        0 <= j < pos ==> self.transitions@[(#[trigger] order@[j]) as int].incoming_count
                            >= count,
                decreases order@.len() - pos,
            {
                pos = pos + 1;
            }
            let ghost before = order@;
            order.insert(pos, k);
            proof {
                assert forall|i: int, j: int| 0 <= i < j < order@.len() implies order@[i] != order@[j] by {
                    if i < pos as int && j > pos as int {
                        assert(order@[j] == before[j - 1]);
                    }
                    if i == pos as int {
                        assert(order@[j] == before[j - 1]);
                    }
                    if j == pos as int {
                        assert(order@[i] == before[i]);
                    }
                }
                assert forall|i: int, j: int|
                    0 <= i < j < order@.len() implies self.transitions@[order@[i] as int].incoming_count
                    >= self.transitions@[order@[j] as int].incoming_count by {
                    if pos < before.len() {
                        assert(self.transitions@[before[pos as int] as int].incoming_count < count);
                    }
                    if j == pos as int {
                        assert(order@[i] == before[i]);
                    } else if i == pos as int {
                        assert(order@[j] == before[j - 1]);
                        if j - 1 > pos as int {
                            assert(self.transitions@[before[pos as int] as int].incoming_count
                                >= self.transitions@[before[j - 1] as int].incoming_count);
                        }
                    } else if j < pos as int {
                        assert(order@[i] == before[i] && order@[j] == before[j]);
                    } else if i > pos as int {
                        assert(order@[i] == before[i - 1] && order@[j] == before[j - 1]);
                    } else {
                        assert(order@[i] == before[i] && order@[j] == before[j - 1]);
                    }
                }
                assert forall|j: int| 0 <= j < order@.len() implies (#[trigger] order@[j]) < k + 1 by {
                    if j < pos as int {
                        assert(order@[j] == before[j]);
                    } else if j > pos as int {
                        assert(order@[j] == before[j - 1]);
                    }
                }
            }
            k = k + 1;
        }
        let mut r: Vec<String> = Vec::new();
        let mut j: usize = 0;
        while j < n
            invariant
                n == self.transitions@.len() == order@.len(),
                j <= n,
                r@.len() == j,
                forall|i: int| 0 <= i < order@.len() ==> (#[trigger] order@[i]) < n,
                forall|i: int|
                    0 <= i < j ==> #[trigger] r@[i]@ == self.transitions@[order@[i] as int].value@,
            decreases n - j,
        {
            r.push(self.transitions[order[j]].value.clone());
            j = j + 1;
        }
        proof {
            assert(ordered_by_count(*self, order@));
        }
        r
    }
}

proof fn lemma_child_index_any(t: MarkovTransitions, w: Seq<char>, i: int)
    requires
        0 <= i < t.transitions@.len(),
        t.transitions@[i].value@ == w,
        values_unique(t),
    ensures
        child_index(t, w) == i,
{
    lemma_child_index(t, i);
}

/// Words that are never recorded, nor anything after them.
pub fn default_stop_words() -> (r: Vec<String>)
    ensures
        words_of(r@) == seq!["say"@, "emote"@, "pose"@],
{
    let mut r: Vec<String> = Vec::new();
    r.push(String::from_str("say"));
    r.push(String::from_str("emote"));
    r.push(String::from_str("pose"));
    assert(words_of(r@) =~= seq!["say"@, "emote"@, "pose"@]);
    r
}

/// What `MarkovTrie::add_sequence` records: the sequence cut to `max_depth`
/// words, up to its first stop word.
pub open spec fn recorded_words(seq: Path, stop_words: Seq<Seq<char>>, max_depth: nat) -> Path {
    let limited = if seq.len() > max_depth {
        seq.subrange(0, max_depth as int)
    } else {
        seq
    };
    recorded(limited, stop_words, max_depth)
}

/// `words` are the words seen after `path` in `trie`, each once, most often
/// seen first.
pub open spec fn next_words(trie: MarkovTrie, path: Path, words: Path) -> bool {
    &&& forall|i: int, j: int| 0 <= i < j < words.len() ==> words[i] != words[j]
    &&& forall|i: int| 0 <= i < words.len() ==> trie.count(path.push(#[trigger] words[i])) > 0
    &&& forall|w: Seq<char>| trie.count(#[trigger] path.push(w)) > 0 ==> words.contains(w)
    &&& forall|i: int, j: int|
        0 <= i < j < words.len() ==> trie.count(path.push(#[trigger] words[i])) >= trie.count(
            path.push(#[trigger] words[j]),
        )
}

/// Counts how often each sequence of words (up to a depth) began a recorded
/// sequence.
pub struct MarkovTrie {
    root: MarkovTransitions,
    max_depth: usize,
    stop_words: Vec<String>,
    /// How many sequences were added (saturating); no count exceeds it.
    sequences: usize,
}

/// The suggestions that follow a queried sequence, most frequent first.
pub struct QueryNext {
    words: Vec<String>,
}

impl QueryNext {
    /// The suggested words.
    pub fn into_vec(self) -> (r: Vec<String>)
        ensures
            words_of(r@) == self.view_words(),
    {
        self.words
    }

    /// The suggested words, as words.
    pub closed spec fn view_words(&self) -> Path {
        words_of(self.words@)
    }
}

impl MarkovTrie {
    #[verifier::type_invariant]
    spec fn inv(self) -> bool {
        &&& trie_wf(self.root)
        &&& self.max_depth >= 1
        &&& forall|p: Path| #[trigger] count_of(self.root, p) <= self.sequences
    }

    /// How many sequences were added (saturating at `usize::MAX`).
    pub closed spec fn sequences_view(&self) -> nat {
        self.sequences as nat
    }

    /// Every count is at most the number of sequences added (this call makes
    /// that known).
    pub fn note_count_bound(&self)
        ensures
            forall|p: Path| #[trigger] self.count(p) <= self.sequences_view(),
    {
        proof {
            use_type_invariant(self);
        }
    }

    /// How many sequences were added (saturating at `usize::MAX`).
    pub fn sequences_recorded(&self) -> (r: usize)
        ensures
            r == self.sequences_view(),
    {
        self.sequences
    }

    /// How often recorded sequences began with `path`.
    pub closed spec fn count(&self, path: Path) -> nat {
        count_of(self.root, path)
    }

    /// The stop words.
    pub closed spec fn stop_words_view(&self) -> Seq<Seq<char>> {
        words_of(self.stop_words@)
    }

    /// The longest prefix that is recorded.
    pub closed spec fn max_depth_view(&self) -> nat {
        self.max_depth as nat
    }

    /// An empty trie that never records the given stop words.
    pub fn with_stop_words(stop_words: Vec<String>) -> (r: MarkovTrie)
        ensures
            forall|p: Path| r.count(p) == 0,
            r.stop_words_view() == words_of(stop_words@),
            r.max_depth_view() == DEFAULT_MAX_DEPTH,
            r.sequences_view() == 0,
    {
        let r = MarkovTrie {
            root: MarkovTransitions { transitions: Vec::new() },
            max_depth: DEFAULT_MAX_DEPTH,
            stop_words,
            sequences: 0,
        };
        proof {
            assert forall|p: Path| #[trigger] node_at(r.root, p) is None by {
                if p.len() > 0 {
                    lemma_child_index_absent(r.root, p[0]);
                }
            }
        }
        r
    }

    /// An empty trie with the default stop words ("say", "emote", "pose").
    pub fn new() -> (r: MarkovTrie)
        ensures
            forall|p: Path| r.count(p) == 0,
            r.stop_words_view() == seq!["say"@, "emote"@, "pose"@],
            r.max_depth_view() == DEFAULT_MAX_DEPTH,
            r.sequences_view() == 0,
    {
        MarkovTrie::with_stop_words(default_stop_words())
    }

    /// Records a sequence: every non-empty prefix of `recorded_words` counts
    /// once more.
    pub fn add_sequence(&mut self, sequence: &Vec<String>)
        requires
            forall|p: Path|
                is_nonempty_prefix(
                    p,
                    recorded_words(
                        words_of(sequence@),
                        old(self).stop_words_view(),
                        old(self).max_depth_view(),
                    ),
                ) ==> #[trigger] old(self).count(p) < usize::MAX,
        ensures
            final(self).stop_words_view() == old(self).stop_words_view(),
            final(self).max_depth_view() == old(self).max_depth_view(),
            final(self).sequences_view() == if old(self).sequences_view() < usize::MAX {
                old(self).sequences_view() + 1
            } else {
                old(self).sequences_view()
            },
            forall|p: Path|
                #[trigger] final(self).count(p) == old(self).count(p) + (if is_nonempty_prefix(
                    p,
                    recorded_words(
                        words_of(sequence@),
                        old(self).stop_words_view(),
                        old(self).max_depth_view(),
                    ),
                ) {
                    1int
                } else {
                    0int
                }),
    {
        proof {
            use_type_invariant(&*self);
        }
        let sequences = self.sequences;
        self.sequences = sequences.saturating_add(1);
        if sequence.len() == 0 {
            proof {
                assert(recorded_words(words_of(sequence@), self.stop_words_view(), self.max_depth as nat).len() == 0);
            }
            return;
        }
        let mut limited: Vec<String> = Vec::new();
        let mut k: usize = 0;
        while k < sequence.len() && k < self.max_depth
            invariant
                k <= sequence@.len(),
                k <= self.max_depth,
                limited@.len() == k,
                forall|j: int| 0 <= j < k ==> #[trigger] limited@[j]@ == sequence@[j]@,
            decreases sequence@.len() - k,
        {
            limited.push(sequence[k].clone());
            k = k + 1;
        }
        let ghost full = words_of(sequence@);
        let ghost lim = if full.len() > self.max_depth {
            full.subrange(0, self.max_depth as int)
        } else {
            full
        };
        proof {
            assert(words_of(limited@) =~= lim);
            assert(words_of(limited@).subrange(0, limited@.len() as int) =~= lim);
        }
        let mut root = MarkovTransitions { transitions: Vec::new() };
        std::mem::swap(&mut root, &mut self.root);
        proof {
            let rw = recorded(
                words_of(limited@).subrange(0, limited@.len() as int),
                words_of(self.stop_words@),
                self.max_depth as nat,
            );
            assert forall|p: Path| is_nonempty_prefix(p, rw) implies #[trigger] count_of(root, p)
                < usize::MAX by {
                assert(old(self).count(p) == count_of(root, p));
            }
        }
        root.add_sequence(&limited, 0, &self.stop_words, self.max_depth);
        proof {
            assert forall|p: Path| #[trigger] count_of(root, p) <= self.sequences by {
                lemma_count_fits(root, p);
                assert(old(self).count(p) <= sequences);
            }
        }
        self.root = root;
    }

    /// The words seen after `sequence`, each once, most often seen first;
    /// the order among words seen equally often is left open.
    pub fn query_next(&self, sequence: &Vec<String>) -> (r: QueryNext)
        ensures
            next_words(*self, words_of(sequence@), r.view_words()),
    {
        proof {
            use_type_invariant(self);
        }
        let ghost path = words_of(sequence@);
        if sequence.len() == 0 {
            let words = self.root.gather_transitions();
            proof {
                assert forall|w: Seq<char>| #[trigger] path.push(w) == seq![w] by {
                    assert(path.push(w) =~= seq![w]);
                }
                let order = choose|order: Seq<usize>|
                    ordered_by_count(self.root, order) && words@.len() == order.len() && forall|j: int|
                        0 <= j < words@.len() ==> #[trigger] words@[j]@
                            == self.root.transitions@[order[j] as int].value@;
                lemma_gathered(self.root, order, words@);
                assert forall|w: Seq<char>| #![auto] count_of(self.root, seq![w]) > 0 <==> exists|k: int|
                    0 <= k < self.root.transitions@.len()
                        && (#[trigger] self.root.transitions@[k]).value@ == w by {
                    lemma_children_at_root(self.root, w);
                }
                assert forall|k: int|
                    0 <= k < self.root.transitions@.len() implies count_of(
                        self.root,
                        seq![(#[trigger] self.root.transitions@[k]).value@],
                    ) == self.root.transitions@[k].incoming_count by {
                    lemma_children_at_root(self.root, self.root.transitions@[k].value@);
                }
            }
            return QueryNext { words };
        }
        match self.root.find_node(sequence, 0) {
            Some(node) => {
                proof {
                    assert(words_of(sequence@).subrange(0, sequence@.len() as int) =~= path);
                    assert(level_wf(node.transitions));
                }
                let words = node.transitions.gather_transitions();
                proof {
                    let order = choose|order: Seq<usize>|
                        ordered_by_count(node.transitions, order) && words@.len() == order.len()
                            && forall|j: int|
                            0 <= j < words@.len() ==> #[trigger] words@[j]@
                                == node.transitions.transitions@[order[j] as int].value@;
                    lemma_gathered(node.transitions, order, words@);
                    assert forall|w: Seq<char>| #![auto] count_of(self.root, path.push(w)) > 0 <==> exists|k: int|
                        0 <= k < node.transitions.transitions@.len()
                            && (#[trigger] node.transitions.transitions@[k]).value@ == w by {
                        lemma_children_at(self.root, path, *node, w);
                    }
                    assert forall|k: int|
                        0 <= k < node.transitions.transitions@.len() implies count_of(
                            self.root,
                            path.push((#[trigger] node.transitions.transitions@[k]).value@),
                        ) == node.transitions.transitions@[k].incoming_count by {
                        lemma_children_at(
                            self.root,
                            path,
                            *node,
                            node.transitions.transitions@[k].value@,
                        );
                    }
                }
                QueryNext { words }
            },
            None => {
                proof {
                    assert(words_of(sequence@).subrange(0, sequence@.len() as int) =~= path);
                    assert forall|w: Seq<char>| count_of(self.root, #[trigger] path.push(w)) == 0 by {
                        lemma_node_at_push(self.root, path, w);
                    }
                }
                let words: Vec<String> = Vec::new();
                proof {
                    assert(words_of(words@) =~= Seq::<Seq<char>>::empty());
                }
                QueryNext { words }
            },
        }
    }
}

/// What the gathered words say about the children they came from.
proof fn lemma_gathered(t: MarkovTransitions, order: Seq<usize>, words: Seq<String>)
    requires
        level_wf(t),
        ordered_by_count(t, order),
        words.len() == order.len(),
        forall|j: int| 0 <= j < words.len() ==> #[trigger] words[j]@ == t.transitions@[order[j] as int].value@,
    ensures
        forall|i: int, j: int|
            0 <= i < j < words.len() ==> words_of(words)[i] != words_of(words)[j],
        forall|k: int|
            0 <= k < t.transitions@.len() ==> words_of(words).contains((#[trigger] t.transitions@[k]).value@),
        forall|i: int|
            0 <= i < words.len() ==> #[trigger] words_of(words)[i] == t.transitions@[order[i] as int].value@,
{
    assert forall|i: int, j: int| 0 <= i < j < words.len() implies words_of(words)[i] != words_of(words)[j] by {
        let a = order[i] as int;
        let b = order[j] as int;
        if a < b {
            assert(t.transitions@[a].value@ != t.transitions@[b].value@);
        } else {
            assert(t.transitions@[b].value@ != t.transitions@[a].value@);
        }
    }
    assert forall|k: int| 0 <= k < t.transitions@.len() implies words_of(words).contains(
        (#[trigger] t.transitions@[k]).value@,
    ) by {
        // `order` is injective into 0..len with len elements, so it hits k.
        lemma_permutation_hits(order, t.transitions@.len() as int, k);
        let j = choose|j: int| 0 <= j < order.len() && order[j] == k;
        assert(words_of(words)[j] == t.transitions@[k].value@);
    }
}

/// An injective map from `0..n` into `0..n` reaches every value.
proof fn lemma_permutation_hits(order: Seq<usize>, n: int, k: int)
    requires
        order.len() == n,
        0 <= k < n,
        forall|j: int| 0 <= j < order.len() ==> (#[trigger] order[j]) < n,
        forall|i: int, j: int| 0 <= i < j < order.len() ==> order[i] != order[j],
    ensures
        exists|j: int| 0 <= j < order.len() && order[j] == k,
{
    let s = order.map_values(|x: usize| x as int);
    if !(exists|j: int| 0 <= j < order.len() && order[j] == k) {
        // Then the n distinct values all lie in 0..n minus {k}: too many.
        let full = Set::new(|x: int| 0 <= x < n && x != k);
        assert(s.to_set().subset_of(full)) by {
            assert forall|x: int| s.to_set().contains(x) implies full.contains(x) by {
                let j = choose|j: int| 0 <= j < s.len() && s[j] == x;
                assert(order[j] as int == x);
            }
        }
        assert(s.no_duplicates()) by {
            assert forall|i: int, j: int| 0 <= i < s.len() && 0 <= j < s.len() && i != j implies s[i] != s[j] by {
                if i < j {
                    assert(order[i] != order[j]);
                } else {
                    assert(order[j] != order[i]);
                }
            }
        }
        s.unique_seq_to_set();
        assert(full =~= Set::new(|x: int| 0 <= x < n).remove(k));
        vstd::set_lib::lemma_int_range(0, n);
        assert(Set::new(|x: int| 0 <= x < n) =~= vstd::set_lib::set_int_range(0, n));
        vstd::set_lib::lemma_len_subset(s.to_set(), full);
    }
}

} // verus!
