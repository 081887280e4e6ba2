//! Deterministic finite automata built directly from a syntax tree: the
//! attribute evaluator (nullability, firstpos, lastpos, followpos), the DFA
//! builder, and the DFA minimizer.

pub mod dfa;
pub mod dfa_minimization;
pub mod utils;

use vstd::prelude::*;

use crate::syntax_tree::{GrammarType, Operations, SyntaxTree};
use crate::fsm::utils::map_leaf;

verus! {

/// Whether the subtree can match the empty string: a leaf never can, a
/// repetition always can, a union can when either operand can, a
/// concatenation when both operands can.
pub open spec fn spec_nullable(t: SyntaxTree) -> bool
    decreases t,
{
    match t.entry {
        GrammarType::CHAR(_) => false,
        GrammarType::OPERATION(Operations::REPETITION) => true,
        GrammarType::OPERATION(Operations::OR) => match (t.left, t.right) {
            (Some(l), Some(r)) => spec_nullable(*l) || spec_nullable(*r),
            _ => false,
        },
        GrammarType::OPERATION(Operations::CONCAT) => match (t.left, t.right) {
            (Some(l), Some(r)) => spec_nullable(*l) && spec_nullable(*r),
            _ => false,
        },
        _ => false,
    }
}

/// The positions (leaf indices, counted from `base` for this subtree) that
/// can match the first symbol of a string the subtree matches.
pub open spec fn spec_firstpos(t: SyntaxTree, base: int) -> Set<int>
    decreases t,
{
    match t.entry {
        GrammarType::CHAR(_) => set![base],
        GrammarType::OPERATION(Operations::TERMINATOR) => set![base],
        GrammarType::OPERATION(Operations::REPETITION) => match t.left {
            Some(l) => spec_firstpos(*l, base),
            None => Set::empty(),
        },
        GrammarType::OPERATION(Operations::OR) => match (t.left, t.right) {
            (Some(l), Some(r)) => spec_firstpos(*l, base) + spec_firstpos(
                *r,
                base + (*l).leaf_count(),
            ),
            _ => Set::empty(),
        },
        GrammarType::OPERATION(Operations::CONCAT) => match (t.left, t.right) {
            (Some(l), Some(r)) => if spec_nullable(*l) {
                spec_firstpos(*l, base) + spec_firstpos(*r, base + (*l).leaf_count())
            } else {
                spec_firstpos(*l, base)
            },
            _ => Set::empty(),
        },
        _ => Set::empty(),
    }
}

/// The positions that can match the last symbol of a string the subtree
/// matches.
pub open spec fn spec_lastpos(t: SyntaxTree, base: int) -> Set<int>
    decreases t,
{
    match t.entry {
        GrammarType::CHAR(_) => set![base],
        GrammarType::OPERATION(Operations::TERMINATOR) => set![base],
        GrammarType::OPERATION(Operations::REPETITION) => match t.left {
            Some(l) => spec_lastpos(*l, base),
            None => Set::empty(),
        },
        GrammarType::OPERATION(Operations::OR) => match (t.left, t.right) {
            (Some(l), Some(r)) => spec_lastpos(*l, base) + spec_lastpos(
                *r,
                base + (*l).leaf_count(),
            ),
            _ => Set::empty(),
        },
        GrammarType::OPERATION(Operations::CONCAT) => match (t.left, t.right) {
            (Some(l), Some(r)) => if spec_nullable(*r) {
                spec_lastpos(*l, base) + spec_lastpos(*r, base + (*l).leaf_count())
            } else {
                spec_lastpos(*r, base + (*l).leaf_count())
            },
            _ => Set::empty(),
        },
        _ => Set::empty(),
    }
}

/// The contribution of the subtree (whose leftmost leaf has index `base`) to
/// `followpos(p)`: positions that can immediately follow position `p` because
/// of a concatenation or repetition node inside this subtree.
pub open spec fn spec_followpos(t: SyntaxTree, base: int, p: int) -> Set<int>
    decreases t,
{
    match t.entry {
        GrammarType::OPERATION(Operations::REPETITION) => match t.left {
            Some(l) => spec_followpos(*l, base, p) + (if spec_lastpos(*l, base).contains(p) {
                spec_firstpos(*l, base)
            } else {
                Set::empty()
            }),
            None => Set::empty(),
        },
        GrammarType::OPERATION(Operations::OR) => match (t.left, t.right) {
            (Some(l), Some(r)) => spec_followpos(*l, base, p) + spec_followpos(
                *r,
                base + (*l).leaf_count(),
                p,
            ),
            _ => Set::empty(),
        },
        GrammarType::OPERATION(Operations::CONCAT) => match (t.left, t.right) {
            (Some(l), Some(r)) => spec_followpos(*l, base, p) + spec_followpos(
                *r,
                base + (*l).leaf_count(),
                p,
            ) + (if spec_lastpos(*l, base).contains(p) {
                spec_firstpos(*r, base + (*l).leaf_count())
            } else {
                Set::empty()
            }),
            _ => Set::empty(),
        },
        _ => Set::empty(),
    }
}

/// The attribute mirror of a syntax tree: the same shape, together with the
/// per-node attributes the evaluator fills in (leaf index, nullability,
/// firstpos, lastpos).
pub struct NodeWrapper {
    pub entry: GrammarType,
    pub left: Option<Box<NodeWrapper>>,
    pub right: Option<Box<NodeWrapper>>,
    pub leaf_index: Option<usize>,
    pub nullable: bool,
    pub first_pos: Vec<usize>,
    pub last_pos: Vec<usize>,
}

impl NodeWrapper {
    /// The wrapper mirrors the tree: same tags, same shape.
    pub open spec fn matches_tree(self, t: SyntaxTree) -> bool
        decreases self,
    {
        &&& self.entry == t.entry
        &&& match (self.left, t.left) {
            (Some(a), Some(b)) => (*a).matches_tree(*b),
            (None, None) => true,
            _ => false,
        }
        &&& match (self.right, t.right) {
            (Some(a), Some(b)) => (*a).matches_tree(*b),
            (None, None) => true,
            _ => false,
        }
    }

    /// Every node's `nullable` field holds the nullability of the
    /// corresponding subtree.
    pub open spec fn nullable_ok(self, t: SyntaxTree) -> bool
        decreases self,
    {
        &&& self.nullable == spec_nullable(t)
        &&& match (self.left, t.left) {
            (Some(a), Some(b)) => (*a).nullable_ok(*b),
            (None, None) => true,
            _ => false,
        }
        &&& match (self.right, t.right) {
            (Some(a), Some(b)) => (*a).nullable_ok(*b),
            (None, None) => true,
            _ => false,
        }
    }

    /// No node of the wrapper carries a leaf index yet.
    pub open spec fn no_indices(self) -> bool
        decreases self,
    {
        &&& self.leaf_index is None
        &&& match self.left {
            Some(a) => (*a).no_indices(),
            None => true,
        }
        &&& match self.right {
            Some(a) => (*a).no_indices(),
            None => true,
        }
    }

    /// Every inner node (one with a child) carries no leaf index; only leaves
    /// may.
    pub open spec fn inner_indices_none(self) -> bool
        decreases self,
    {
        if self.left is None && self.right is None {
            true
        } else {
            &&& self.leaf_index is None
            &&& match self.left {
                Some(a) => (*a).inner_indices_none(),
                None => true,
            }
            &&& match self.right {
                Some(a) => (*a).inner_indices_none(),
                None => true,
            }
        }
    }

    /// Every node's position lists are empty.
    pub open spec fn empty_poslists(self) -> bool
        decreases self,
    {
        &&& self.first_pos@.len() == 0
        &&& self.last_pos@.len() == 0
        &&& match self.left {
            Some(a) => (*a).empty_poslists(),
            None => true,
        }
        &&& match self.right {
            Some(a) => (*a).empty_poslists(),
            None => true,
        }
    }

    /// The two wrappers have the same shape and the same position lists at
    /// every node.
    pub open spec fn same_poslists(self, other: NodeWrapper) -> bool
        decreases self,
    {
        &&& self.first_pos == other.first_pos
        &&& self.last_pos == other.last_pos
        &&& match (self.left, other.left) {
            (Some(a), Some(b)) => (*a).same_poslists(*b),
            (None, None) => true,
            _ => false,
        }
        &&& match (self.right, other.right) {
            (Some(a), Some(b)) => (*a).same_poslists(*b),
            (None, None) => true,
            _ => false,
        }
    }

    /// Every leaf's `leaf_index` field holds its position: leaves are
    /// numbered left to right, starting at `base` for this subtree.
    pub open spec fn indices_ok(self, t: SyntaxTree, base: int) -> bool
        decreases self,
    {
        match (self.left, t.left) {
            (Some(a), Some(b)) => {
                let lcount = (*b).leaf_count();
                &&& (*a).indices_ok(*b, base)
                &&& match (self.right, t.right) {
                    (Some(c), Some(d)) => (*c).indices_ok(*d, base + lcount),
                    (None, None) => true,
                    _ => false,
                }
            },
            (None, None) => match (self.right, t.right) {
                (Some(c), Some(d)) => (*c).indices_ok(*d, base),
                (None, None) => self.leaf_index matches Some(k) && k as int == base,
                _ => false,
            },
            _ => false,
        }
    }

    /// Every node's `first_pos` and `last_pos` lists are strictly sorted and
    /// hold exactly the subtree's firstpos and lastpos sets.
    pub open spec fn poslists_ok(self, t: SyntaxTree, base: int) -> bool
        decreases self,
    {
        &&& strictly_sorted(self.first_pos@)
        &&& strictly_sorted(self.last_pos@)
        &&& pos_set(self.first_pos@) == spec_firstpos(t, base)
        &&& pos_set(self.last_pos@) == spec_lastpos(t, base)
        &&& match (self.left, t.left) {
            (Some(a), Some(b)) => (*a).poslists_ok(*b, base),
            (None, None) => true,
            _ => false,
        }
        &&& match (self.right, t.right) {
            (Some(a), Some(b)) => {
                let lcount = match t.left {
                    Some(l) => (*l).leaf_count(),
                    None => 0,
                };
                (*a).poslists_ok(*b, base + lcount)
            },
            (None, None) => true,
            _ => false,
        }
    }

    /// Builds the attribute mirror of a tree, computing nullability bottom
    /// up; leaf indices and position lists are left for the later passes, so
    /// every leaf index is absent and every position list empty.
    pub fn new(root: &SyntaxTree) -> (w: NodeWrapper)
        ensures
            w.matches_tree(*root),
            w.nullable_ok(*root),
            w.no_indices(),
            w.inner_indices_none(),
            w.empty_poslists(),
        decreases *root,
    {
        let left_node: Option<Box<NodeWrapper>> = match &root.left {
            Some(n) => Some(Box::new(NodeWrapper::new(n))),
            None => None,
        };
        let right_node: Option<Box<NodeWrapper>> = match &root.right {
            Some(n) => Some(Box::new(NodeWrapper::new(n))),
            None => None,
        };

        let is_nullable = match root.entry {
            GrammarType::CHAR(_) => false,
            GrammarType::OPERATION(Operations::REPETITION) => true,
            GrammarType::OPERATION(Operations::OR) => match (&left_node, &right_node) {
                (Some(l), Some(r)) => l.nullable || r.nullable,
                _ => false,
            },
            GrammarType::OPERATION(Operations::CONCAT) => match (&left_node, &right_node) {
                (Some(l), Some(r)) => l.nullable && r.nullable,
                _ => false,
            },
            _ => false,
        };

        NodeWrapper {
            entry: root.entry,
            left: left_node,
            right: right_node,
            leaf_index: None,
            nullable: is_nullable,
            first_pos: Vec::new(),
            last_pos: Vec::new(),
        }
    }
}

/// The literal character of the `i`-th leaf, or `None` for the terminator
/// leaf (which never joins the alphabet).
pub open spec fn leaf_char_of(t: SyntaxTree, i: int) -> Option<char> {
    match t.leaf_entry(i) {
        GrammarType::CHAR(c) => Some(c),
        _ => None,
    }
}

/// The set of characters a list holds.
pub open spec fn char_set(s: Seq<char>) -> Set<char> {
    Set::new(|c: char| s.contains(c))
}

/// Inserts a character into a strictly sorted list, keeping it strictly
/// sorted; a character already present is left alone.
pub fn insert_char_sorted(alpha: &mut Vec<char>, c: char)
    requires
        forall|i: int, j: int|
            0 <= i < j < old(alpha)@.len() ==> old(alpha)@[i] < old(alpha)@[j],
    ensures
        forall|i: int, j: int|
            0 <= i < j < final(alpha)@.len() ==> final(alpha)@[i] < final(alpha)@[j],
        char_set(final(alpha)@) == char_set(old(alpha)@).insert(c),
{
    let mut k: usize = 0;
    while k < alpha.len() && alpha[k] < c
        invariant
            k <= alpha@.len(),
            alpha@ == old(alpha)@,
            forall|i: int| 0 <= i < k ==> alpha@[i] < c,
        decreases alpha@.len() - k,
    {
        k += 1;
    }
    if k < alpha.len() && alpha[k] == c {
        proof {
            assert(alpha@.contains(c));
            assert(char_set(alpha@) =~= char_set(old(alpha)@).insert(c));
        }
        return ;
    }
    let ghost before = alpha@;
    alpha.insert(k, c);
    proof {
        assert forall|i: int, j: int|
            0 <= i < j < alpha@.len() implies alpha@[i] < alpha@[j] by {
            if j < k {
            } else if i < k && j == k {
            } else if i < k && j > k {
                assert(alpha@[j] == before[j - 1]);
            } else if i == k {
                assert(alpha@[j] == before[j - 1]);
                assert(before[j - 1] >= before[k as int]);
            } else {
                assert(alpha@[i] == before[i - 1]);
                assert(alpha@[j] == before[j - 1]);
            }
        }
        assert forall|d: char| char_set(alpha@).contains(d) implies char_set(
            before,
        ).insert(c).contains(d) by {
            let m = choose|m: int| 0 <= m < alpha@.len() && alpha@[m] == d;
            if m < k {
                assert(before[m] == d);
            } else if m > k {
                assert(before[m - 1] == d);
            }
        }
        assert forall|d: char| char_set(before).insert(c).contains(d) implies char_set(
            alpha@,
        ).contains(d) by {
            if d == c {
                assert(alpha@[k as int] == c);
            } else {
                let m = choose|m: int| 0 <= m < before.len() && before[m] == d;
                if m < k {
                    assert(alpha@[m] == d);
                } else {
                    assert(alpha@[m + 1] == d);
                }
            }
        }
        assert(char_set(alpha@) =~= char_set(before).insert(c));
    }
}

/// A strictly increasing sequence: sorted, and so free of duplicates.
pub open spec fn strictly_sorted(s: Seq<usize>) -> bool {
    forall|i: int, j: int| 0 <= i < j < s.len() ==> s[i] < s[j]
}

/// The set of positions a list holds.
pub open spec fn pos_set(s: Seq<usize>) -> Set<int> {
    Set::new(|p: int| exists|k: int| 0 <= k < s.len() && s[k] as int == p)
}

/// Writes the literal character of every leaf of the subtree into the slots
/// `base` up to `base + leaf_count` of the character table; the terminator
/// leaf gets `None`.
fn collect_leaf_chars(
    root: &NodeWrapper,
    chars: &mut Vec<Option<char>>,
    Ghost(t): Ghost<SyntaxTree>,
    Ghost(base): Ghost<int>,
)
    requires
        root.matches_tree(t),
        root.indices_ok(t, base),
        base >= 0,
        base + t.leaf_count() <= old(chars)@.len(),
    ensures
        final(chars)@.len() == old(chars)@.len(),
        forall|i: int|
            0 <= i < final(chars)@.len() ==> final(chars)@[i] == (if base <= i < base
                + t.leaf_count() {
                leaf_char_of(t, i - base)
            } else {
                old(chars)@[i]
            }),
    decreases t,
{
    match (&root.left, &root.right) {
        (Some(l), Some(r)) => {
            let ghost lt = *t.left->Some_0;
            let ghost rt = *t.right->Some_0;
            let ghost table0 = chars@;
            collect_leaf_chars(&**l, chars, Ghost(lt), Ghost(base));
            collect_leaf_chars(&**r, chars, Ghost(rt), Ghost(base + lt.leaf_count()));
            proof {
                assert(t.leaf_count() == lt.leaf_count() + rt.leaf_count());
                assert forall|i: int| 0 <= i < chars@.len() implies chars@[i] == (if base <= i
                    < base + t.leaf_count() {
                    leaf_char_of(t, i - base)
                } else {
                    table0[i]
                }) by {
                    if base <= i < base + lt.leaf_count() {
                        assert(t.leaf_entry(i - base) == lt.leaf_entry(i - base));
                    } else if base + lt.leaf_count() <= i < base + t.leaf_count() {
                        assert(t.leaf_entry(i - base) == rt.leaf_entry(i - base
                            - lt.leaf_count()));
                    }
                }
            }
        },
        (Some(l), None) => {
            let ghost lt = *t.left->Some_0;
            collect_leaf_chars(&**l, chars, Ghost(lt), Ghost(base));
            proof {
                assert(t.leaf_count() == lt.leaf_count());
                assert forall|i: int|
                    base <= i < base + t.leaf_count() implies #[trigger] t.leaf_entry(i - base)
                    == lt.leaf_entry(i - base) by {}
            }
        },
        (None, Some(r)) => {
            let ghost rt = *t.right->Some_0;
            collect_leaf_chars(&**r, chars, Ghost(rt), Ghost(base));
            proof {
                assert(t.leaf_count() == rt.leaf_count());
                assert forall|i: int|
                    base <= i < base + t.leaf_count() implies #[trigger] t.leaf_entry(i - base)
                    == rt.leaf_entry(i - base) by {}
            }
        },
        (None, None) => {
            let k: usize = match root.leaf_index {
                Some(k) => k,
                None => 0,
            };
            proof {
                assert(root.leaf_index == Some(k) && k as int == base);
                assert(t.leaf_count() == 1);
                assert(t.leaf_entry(0) == t.entry);
            }
            match root.entry {
                GrammarType::CHAR(c) => {
                    chars.set(k, Some(c));
                },
                _ => {
                    chars.set(k, None);
                },
            }
        },
    }
}

impl NodeWrapper {
    /// Numbers the leaves left to right from zero, and returns the ordered
    /// alphabet (the distinct literal leaf characters, the terminator
    /// excluded) together with the position-to-character table. Inner nodes
    /// keep their absent leaf index, and no position list is touched.
    pub fn numerate_leaves(&mut self, Ghost(t): Ghost<SyntaxTree>) -> (r: (
        Vec<char>,
        Vec<Option<char>>,
    ))
        requires
            old(self).matches_tree(t),
            old(self).nullable_ok(t),
            old(self).inner_indices_none(),
            t.leaf_count() <= usize::MAX,
        ensures
            final(self).matches_tree(t),
            final(self).nullable_ok(t),
            final(self).indices_ok(t, 0),
            final(self).inner_indices_none(),
            old(self).same_poslists(*final(self)),
            r.1@.len() == t.leaf_count(),
            forall|i: int| 0 <= i < r.1@.len() ==> r.1@[i] == leaf_char_of(t, i),
            forall|i: int, j: int| 0 <= i < j < r.0@.len() ==> r.0@[i] < r.0@[j],
            forall|c: char|
                char_set(r.0@).contains(c) <==> exists|i: int|
                    0 <= i < t.leaf_count() && leaf_char_of(t, i) == Some(c),
    {
        let n = map_leaf(self, 0, Ghost(t));

        let mut chars: Vec<Option<char>> = Vec::new();
        let mut k: usize = 0;
        while k < n
            invariant
                k <= n,
                chars@.len() == k,
            decreases n - k,
        {
            chars.push(None);
            k += 1;
        }
        collect_leaf_chars(&*self, &mut chars, Ghost(t), Ghost(0));

        let mut alphabet: Vec<char> = Vec::new();
        let mut k: usize = 0;
        while k < chars.len()
            invariant
                k <= chars@.len(),
                chars@.len() == t.leaf_count(),
                forall|i: int| 0 <= i < chars@.len() ==> chars@[i] == leaf_char_of(t, i),
                forall|i: int, j: int| 0 <= i < j < alphabet@.len() ==> alphabet@[i] < alphabet@[j],
                char_set(alphabet@) =~= Set::new(
                    |c: char| exists|i: int| 0 <= i < k && chars@[i] == Some(c),
                ),
            decreases chars@.len() - k,
        {
            let ghost alpha0 = alphabet@;
            match chars[k] {
                Some(c) => {
                    insert_char_sorted(&mut alphabet, c);
                    proof {
                        assert forall|d: char| char_set(alphabet@).contains(d) implies Set::new(
                            |e: char| exists|i: int| 0 <= i < k + 1 && chars@[i] == Some(e),
                        ).contains(d) by {
                            if d == c {
                                assert(chars@[k as int] == Some(d));
                            }
                        }
                        assert forall|d: char|
                            Set::new(
                                |e: char| exists|i: int| 0 <= i < k + 1 && chars@[i] == Some(e),
                            ).contains(d) implies char_set(alphabet@).contains(d) by {
                            let i = choose|i: int| 0 <= i < k + 1 && chars@[i] == Some(d);
                            if i < k {
                                assert(Set::new(
                                    |e: char|
                                        exists|i: int| 0 <= i < k && chars@[i] == Some(e),
                                ).contains(d));
                            }
                        }
                        assert(char_set(alphabet@) =~= Set::new(
                            |c: char| exists|i: int| 0 <= i < k + 1 && chars@[i] == Some(c),
                        ));
                    }
                },
                None => {
                    proof {
                        assert forall|d: char|
                            Set::new(
                                |e: char| exists|i: int| 0 <= i < k + 1 && chars@[i] == Some(e),
                            ).contains(d) implies char_set(alphabet@).contains(d) by {
                            let i = choose|i: int| 0 <= i < k + 1 && chars@[i] == Some(d);
                            assert(i < k);
                            assert(Set::new(
                                |e: char| exists|i: int| 0 <= i < k && chars@[i] == Some(e),
                            ).contains(d));
                        }
                        assert(char_set(alphabet@) =~= Set::new(
                            |c: char| exists|i: int| 0 <= i < k + 1 && chars@[i] == Some(c),
                        ));
                    }
                },
            }
            k += 1;
        }
        proof {
            assert forall|c: char|
                char_set(alphabet@).contains(c) <==> exists|i: int|
                    0 <= i < t.leaf_count() && leaf_char_of(t, i) == Some(c) by {
                if char_set(alphabet@).contains(c) {
                    let i = choose|i: int|
                        0 <= i < chars@.len() && chars@[i] == Some(c);
                    assert(leaf_char_of(t, i) == Some(c));
                }
                if exists|i: int| 0 <= i < t.leaf_count() && leaf_char_of(t, i) == Some(c) {
                    let i = choose|i: int|
                        0 <= i < t.leaf_count() && leaf_char_of(t, i) == Some(c);
                    assert(chars@[i] == Some(c));
                    assert(Set::new(
                        |e: char|
                            exists|i: int|
                                0 <= i < chars@.len() && chars@[i] == Some(e),
                    ).contains(c));
                }
            }
        }
        (alphabet, chars)
    }
}

/// A deterministic finite automaton. States are canonical (sorted,
/// deduplicated) position sets while it comes out of the builder, and lists
/// of merged original states while it comes out of the minimizer. A missing
/// transition means rejection.
#[derive(Debug)]
pub struct Dfa {
    pub alphabet: Vec<char>,
    pub states: Vec<Vec<usize>>,
    pub trans: Vec<Vec<Option<usize>>>,
    pub is_terminal: Vec<bool>,
}

impl Dfa {
    /// The structural invariant: one transition row and one acceptance flag
    /// per state, one transition entry per alphabet symbol, every transition
    /// target a real state, and a strictly sorted alphabet.
    pub open spec fn wf(self) -> bool {
        &&& self.trans@.len() == self.states@.len()
        &&& self.is_terminal@.len() == self.states@.len()
        &&& forall|i: int| 0 <= i < self.trans@.len() ==> #[trigger] self.trans@[i]@.len() == self.alphabet@.len()
        &&& forall|i: int, c: int|
            0 <= i < self.trans@.len() && 0 <= c < self.alphabet@.len() ==> match (
            #[trigger] self.trans@[i]@[c]) {
                Some(j) => j < self.states@.len(),
                None => true,
            }
        &&& forall|i: int, j: int|
            0 <= i < j < self.alphabet@.len() ==> self.alphabet@[i] < self.alphabet@[j]
    }

    /// There is an edge from state `u` to state `v` on some symbol.
    pub open spec fn edge(self, u: int, v: int) -> bool {
        exists|c: int|
            0 <= c < self.alphabet@.len() && #[trigger] self.trans@[u]@[c] == Some(v as usize)
    }

    /// `p` is a path through the automaton that starts at the start state.
    pub open spec fn is_path(self, p: Seq<int>) -> bool {
        &&& p.len() > 0
        &&& p[0] == 0
        &&& forall|k: int| 0 <= k < p.len() ==> 0 <= #[trigger] p[k] < self.states@.len()
        &&& forall|k: int| 0 < k < p.len() ==> self.edge(p[k - 1], #[trigger] p[k])
    }

    /// State `s` is reachable from the start state.
    pub open spec fn spec_reachable(self, s: int) -> bool {
        exists|p: Seq<int>| self.is_path(p) && p.last() == s
    }

    /// Decides the structural invariant, for callers that hold an automaton
    /// of unknown provenance.
    pub fn check_wf(&self) -> (r: bool)
        ensures
            r == self.wf(),
    {
        if self.trans.len() != self.states.len() || self.is_terminal.len() != self.states.len() {
            return false;
        }
        let n = self.states.len();
        let mut i: usize = 0;
        while i < self.trans.len()
            invariant
                i <= self.trans@.len(),
                n == self.states@.len(),
                self.trans@.len() == n,
                forall|w: int| 0 <= w < i ==> #[trigger] self.trans@[w]@.len()
                    == self.alphabet@.len(),
                forall|w: int, c: int|
                    0 <= w < i && 0 <= c < self.alphabet@.len() ==> match (
                    #[trigger] self.trans@[w]@[c]) {
                        Some(j) => j < n,
                        None => true,
                    },
            decreases self.trans@.len() - i,
        {
            let row = &self.trans[i];
            if row.len() != self.alphabet.len() {
                return false;
            }
            let mut c: usize = 0;
            while c < row.len()
                invariant
                    c <= row@.len(),
                    n == self.states@.len(),
                    i < self.trans@.len(),
                    row@.len() == self.alphabet@.len(),
                    row@ == self.trans@[i as int]@,
                    forall|cc: int|
                        0 <= cc < c ==> match (#[trigger] row@[cc]) {
                            Some(j) => j < n,
                            None => true,
                        },
                decreases row@.len() - c,
            {
                match row[c] {
                    Some(j) => {
                        if j >= n {
                            return false;
                        }
                    },
                    None => {},
                }
                c += 1;
            }
            i += 1;
        }
        let mut i: usize = 1;
        while i < self.alphabet.len()
            invariant
                1 <= i,
                self.alphabet@.len() > 0 ==> i <= self.alphabet@.len(),
                self.alphabet@.len() == 0 ==> i == 1,
                forall|w: int, z: int| 0 <= w < z < i ==> self.alphabet@[w] < self.alphabet@[z],
            decreases self.alphabet@.len() - i,
        {
            if self.alphabet[i - 1] >= self.alphabet[i] {
                return false;
            }
            proof {
                assert forall|w: int, z: int|
                    0 <= w < z < i + 1 implies self.alphabet@[w] < self.alphabet@[z] by {
                    if z == i {
                        if w < i - 1 {
                            assert(self.alphabet@[w] < self.alphabet@[i - 1]);
                        }
                    }
                }
            }
            i += 1;
        }
        true
    }

    /// Determinism: no state has two transition entries for the same symbol.
    /// It is structural in this representation — the transition table maps
    /// each state and symbol to at most one successor — and it therefore
    /// holds of every automaton the builder or the minimizer emits.
    pub proof fn lemma_deterministic(self, i: int, c: int, v1: usize, v2: usize)
        requires
            self.trans@[i]@[c] == Some(v1),
            self.trans@[i]@[c] == Some(v2),
        ensures
            v1 == v2,
    {
    }

    /// Appends a state with the given acceptance flag and an empty transition
    /// row.
    pub fn add_state(&mut self, new_state: &Vec<usize>, is_terminal: bool)
        requires
            old(self).trans@.len() == old(self).states@.len(),
            old(self).is_terminal@.len() == old(self).states@.len(),
        ensures
            final(self).states@.len() == old(self).states@.len() + 1,
            forall|i: int|
                0 <= i < old(self).states@.len() ==> final(self).states@[i] == old(self).states@[i],
            final(self).states@.last()@ == new_state@,
            final(self).trans@.len() == old(self).trans@.len() + 1,
            forall|i: int|
                0 <= i < old(self).trans@.len() ==> final(self).trans@[i] == old(self).trans@[i],
            final(self).trans@.last()@ == Seq::new(
                old(self).alphabet@.len(),
                |c: int| None::<usize>,
            ),
            final(self).is_terminal@ == old(self).is_terminal@.push(is_terminal),
            final(self).alphabet == old(self).alphabet,
    {
        self.states.push(new_state.clone());
        let mut row: Vec<Option<usize>> = Vec::new();
        let mut c: usize = 0;
        while c < self.alphabet.len()
            invariant
                row@.len() == c,
                c <= self.alphabet@.len(),
                forall|k: int| 0 <= k < c ==> row@[k] is None,
            decreases self.alphabet@.len() - c,
        {
            row.push(None);
            c += 1;
        }
        assert(row@ =~= Seq::new(self.alphabet@.len(), |c: int| None::<usize>));
        self.trans.push(row);
        self.is_terminal.push(is_terminal);
    }
}

} // verus!
