//! Direct construction of a DFA from the attribute-evaluated syntax tree:
//! reachable position-sets are explored from `firstpos` of the root through
//! the followpos table, with no intermediate nondeterministic automaton.

use vstd::arithmetic::power2::{lemma_pow2_pos, lemma_pow2_unfold, pow2};
use vstd::prelude::*;
use vstd::seq_lib::seq_to_set_is_finite;
use vstd::set_lib::{lemma_int_range, lemma_len_subset, set_int_range};

use crate::fsm::utils::{
    calculate_first_last_pos, contains_pos, generate_follow_pos, lemma_pos_range, union_sorted,
};
use crate::fsm::{
    char_set, leaf_char_of, pos_set, spec_firstpos, spec_followpos, spec_lastpos, strictly_sorted,
    Dfa, NodeWrapper,
};
use crate::syntax_tree::{GrammarType, Operations, SyntaxTree};

verus! {

/// The positions reachable from a position-set state on a symbol: the union
/// of `followpos(p)` over the positions `p` of the state whose leaf carries
/// that symbol.
pub open spec fn spec_move(t: SyntaxTree, s: Set<int>, c: char) -> Set<int> {
    Set::new(
        |q: int|
            exists|p: int|
                #[trigger] s.contains(p) && leaf_char_of(t, p) == Some(c) && spec_followpos(
                    t,
                    0,
                    p,
                ).contains(q),
    )
}

/// Everything that can follow a position of the subtree lies in the
/// subtree's own position range.
pub proof fn lemma_followpos_range(t: SyntaxTree, base: int, p: int)
    ensures
        forall|q: int|
            spec_followpos(t, base, p).contains(q) ==> base <= q < base + t.leaf_count(),
    decreases t,
{
    lemma_pos_range(t, base);
    match (t.left, t.right) {
        (Some(l), Some(r)) => {
            lemma_followpos_range(*l, base, p);
            lemma_followpos_range(*r, base + (*l).leaf_count(), p);
            lemma_pos_range(*l, base);
            lemma_pos_range(*r, base + (*l).leaf_count());
            assert(t.leaf_count() == (*l).leaf_count() + (*r).leaf_count());
            match t.entry {
                GrammarType::OPERATION(Operations::REPETITION) => {
                    assert(spec_followpos(t, base, p) == spec_followpos(*l, base, p) + (
                    if spec_lastpos(*l, base).contains(p) {
                        spec_firstpos(*l, base)
                    } else {
                        Set::<int>::empty()
                    }));
                },
                GrammarType::OPERATION(Operations::OR) => {
                    assert(spec_followpos(t, base, p) == spec_followpos(*l, base, p)
                        + spec_followpos(*r, base + (*l).leaf_count(), p));
                },
                GrammarType::OPERATION(Operations::CONCAT) => {
                    assert(spec_followpos(t, base, p) == spec_followpos(*l, base, p)
                        + spec_followpos(*r, base + (*l).leaf_count(), p) + (if spec_lastpos(
                        *l,
                        base,
                    ).contains(p) {
                        spec_firstpos(*r, base + (*l).leaf_count())
                    } else {
                        Set::<int>::empty()
                    }));
                },
                _ => {
                    assert(spec_followpos(t, base, p) == Set::<int>::empty());
                },
            }
        },
        (Some(l), None) => {
            lemma_followpos_range(*l, base, p);
            lemma_pos_range(*l, base);
            assert(t.leaf_count() == (*l).leaf_count());
            match t.entry {
                GrammarType::OPERATION(Operations::REPETITION) => {
                    assert(spec_followpos(t, base, p) == spec_followpos(*l, base, p) + (
                    if spec_lastpos(*l, base).contains(p) {
                        spec_firstpos(*l, base)
                    } else {
                        Set::<int>::empty()
                    }));
                },
                _ => {
                    assert(spec_followpos(t, base, p) == Set::<int>::empty());
                },
            }
        },
        (None, Some(_)) => {
            assert(spec_followpos(t, base, p) == Set::<int>::empty());
        },
        (None, None) => {
            assert(spec_followpos(t, base, p) == Set::<int>::empty());
        },
    }
}

/// Two strictly sorted lists holding the same set are the same list.
pub proof fn lemma_sorted_canonical(a: Seq<usize>, b: Seq<usize>)
    requires
        strictly_sorted(a),
        strictly_sorted(b),
        pos_set(a) == pos_set(b),
    ensures
        a =~= b,
    decreases a.len(),
{
    if a.len() == 0 {
        if b.len() > 0 {
            assert(pos_set(b).contains(b[0] as int));
        }
    } else {
        assert(pos_set(a).contains(a[0] as int));
        if b.len() == 0 {
            assert(pos_set(a).contains(a[0] as int));
        } else {
            // the heads are both the minimum of the common set
            assert(pos_set(b).contains(a[0] as int));
            assert(pos_set(b).contains(b[0] as int));
            assert(pos_set(a).contains(b[0] as int));
            let ka = choose|k: int| 0 <= k < b.len() && b[k] as int == a[0] as int;
            let kb = choose|k: int| 0 <= k < a.len() && a[k] as int == b[0] as int;
            assert(b[0] <= b[ka]);
            assert(a[0] <= a[kb]);
            assert(a[0] == b[0]);
            let at = a.drop_first();
            let bt = b.drop_first();
            assert forall|p: int| pos_set(at).contains(p) implies pos_set(bt).contains(p) by {
                let k = choose|k: int| 0 <= k < at.len() && at[k] as int == p;
                assert(a[k + 1] as int == p);
                assert(a[0] < a[k + 1]);
                assert(pos_set(a).contains(p));
                assert(pos_set(b).contains(p));
                let m = choose|m: int| 0 <= m < b.len() && b[m] as int == p;
                assert(m != 0);
                assert(bt[m - 1] as int == p);
            }
            assert forall|p: int| pos_set(bt).contains(p) implies pos_set(at).contains(p) by {
                let k = choose|k: int| 0 <= k < bt.len() && bt[k] as int == p;
                assert(b[k + 1] as int == p);
                assert(b[0] < b[k + 1]);
                assert(pos_set(b).contains(p));
                assert(pos_set(a).contains(p));
                let m = choose|m: int| 0 <= m < a.len() && a[m] as int == p;
                assert(m != 0);
                assert(at[m - 1] as int == p);
            }
            assert(strictly_sorted(at));
            assert(strictly_sorted(bt));
            assert(pos_set(at) =~= pos_set(bt));
            lemma_sorted_canonical(at, bt);
            assert(a =~= seq![a[0]] + at);
            assert(b =~= seq![b[0]] + bt);
        }
    }
}

/// The bitmask of a set of positions below `n`.
pub open spec fn mask_of(s: Set<int>, n: nat) -> int
    decreases n,
{
    if n == 0 {
        0
    } else {
        mask_of(s, (n - 1) as nat) + (if s.contains(n - 1) {
            pow2((n - 1) as nat) as int
        } else {
            0
        })
    }
}

/// A mask is a number below `pow2(n)`.
pub proof fn lemma_mask_bound(s: Set<int>, n: nat)
    ensures
        0 <= mask_of(s, n) < pow2(n),
    decreases n,
{
    lemma_pow2_pos(n);
    if n > 0 {
        lemma_mask_bound(s, (n - 1) as nat);
        lemma_pow2_unfold(n);
    }
}

/// Equal masks mean equal membership below `n`.
pub proof fn lemma_mask_same_below(s1: Set<int>, s2: Set<int>, n: nat)
    requires
        mask_of(s1, n) == mask_of(s2, n),
    ensures
        forall|p: int| 0 <= p < n ==> (s1.contains(p) <==> s2.contains(p)),
    decreases n,
{
    if n > 0 {
        lemma_mask_bound(s1, (n - 1) as nat);
        lemma_mask_bound(s2, (n - 1) as nat);
        assert(s1.contains(n - 1) == s2.contains(n - 1));
        lemma_mask_same_below(s1, s2, (n - 1) as nat);
    }
}

/// There are at most `pow2(n)` pairwise distinct states over positions below
/// `n`.
pub proof fn lemma_states_bound(states: Seq<Seq<usize>>, n: nat)
    requires
        forall|i: int, p: int|
            0 <= i < states.len() && #[trigger] pos_set(states[i]).contains(p) ==> 0 <= p < n,
        forall|i: int, j: int|
            0 <= i < j < states.len() ==> pos_set(states[i]) != pos_set(states[j]),
    ensures
        states.len() <= pow2(n),
{
    let masks: Seq<int> = Seq::new(states.len() as nat, |i: int| mask_of(pos_set(states[i]), n));
    assert forall|i: int, j: int| 0 <= i < j < masks.len() implies masks[i] != masks[j] by {
        if masks[i] == masks[j] {
            lemma_mask_same_below(pos_set(states[i]), pos_set(states[j]), n);
            assert forall|p: int|
                pos_set(states[i]).contains(p) <==> pos_set(states[j]).contains(p) by {
                if pos_set(states[i]).contains(p) {
                    assert(0 <= p < n);
                }
                if pos_set(states[j]).contains(p) {
                    assert(0 <= p < n);
                }
            }
            assert(pos_set(states[i]) =~= pos_set(states[j]));
        }
    }
    assert(masks.no_duplicates());
    masks.unique_seq_to_set();
    assert forall|m: int| masks.to_set().contains(m) implies set_int_range(
        0,
        pow2(n) as int,
    ).contains(m) by {
        let i = choose|i: int| 0 <= i < masks.len() && masks[i] == m;
        lemma_mask_bound(pos_set(states[i]), n);
    }
    lemma_int_range(0, pow2(n) as int);
    seq_to_set_is_finite(masks);
    lemma_len_subset(masks.to_set(), set_int_range(0, pow2(n) as int));
}

/// Collects the position-set a state moves to on a symbol: the union of
/// `followpos(p)` over the positions `p` of the state whose leaf carries the
/// symbol, canonically sorted; and whether the new set holds the terminator
/// position (the last position).
pub fn form_state(
    curr_char: char,
    curr_state: &Vec<usize>,
    follow_pos: &Vec<Vec<usize>>,
    leaf_chars: &Vec<Option<char>>,
    Ghost(t): Ghost<SyntaxTree>,
) -> (r: (Vec<usize>, bool))
    requires
        strictly_sorted(curr_state@),
        follow_pos@.len() == t.leaf_count(),
        leaf_chars@.len() == t.leaf_count(),
        forall|p: int| pos_set(curr_state@).contains(p) ==> 0 <= p < t.leaf_count(),
        forall|q: int| 0 <= q < follow_pos@.len() ==> strictly_sorted(#[trigger] follow_pos@[q]@),
        forall|q: int|
            0 <= q < follow_pos@.len() ==> pos_set(#[trigger] follow_pos@[q]@) == spec_followpos(
                t,
                0,
                q,
            ),
        forall|i: int| 0 <= i < leaf_chars@.len() ==> leaf_chars@[i] == leaf_char_of(t, i),
    ensures
        strictly_sorted(r.0@),
        pos_set(r.0@) == spec_move(t, pos_set(curr_state@), curr_char),
        forall|q: int| pos_set(r.0@).contains(q) ==> 0 <= q < t.leaf_count(),
        r.1 == pos_set(r.0@).contains(t.leaf_count() - 1),
{
    let mut result: Vec<usize> = Vec::new();
    let mut idx: usize = 0;
    proof {
        assert(pos_set(result@) =~= Set::<int>::empty());
    }
    while idx < curr_state.len()
        invariant
            idx <= curr_state@.len(),
            strictly_sorted(curr_state@),
            strictly_sorted(result@),
            follow_pos@.len() == t.leaf_count(),
            leaf_chars@.len() == t.leaf_count(),
            forall|p: int| pos_set(curr_state@).contains(p) ==> 0 <= p < t.leaf_count(),
            forall|q: int|
                0 <= q < follow_pos@.len() ==> strictly_sorted(#[trigger] follow_pos@[q]@),
            forall|q: int|
                0 <= q < follow_pos@.len() ==> pos_set(#[trigger] follow_pos@[q]@)
                    == spec_followpos(t, 0, q),
            forall|i: int| 0 <= i < leaf_chars@.len() ==> leaf_chars@[i] == leaf_char_of(t, i),
            pos_set(result@) =~= Set::new(
                |q: int|
                    exists|k: int|
                        0 <= k < idx && leaf_char_of(t, curr_state@[k] as int) == Some(curr_char)
                            && spec_followpos(t, 0, curr_state@[k] as int).contains(q),
            ),
        decreases curr_state@.len() - idx,
    {
        let p = curr_state[idx];
        proof {
            assert(pos_set(curr_state@).contains(p as int));
        }
        let matches_char = match leaf_chars[p] {
            Some(d) => d == curr_char,
            None => false,
        };
        let ghost before = result@;
        if matches_char {
            result = union_sorted(&result, &follow_pos[p]);
        }
        proof {
            assert forall|q: int| pos_set(result@).contains(q) implies Set::new(
                |q: int|
                    exists|k: int|
                        0 <= k < idx + 1 && leaf_char_of(t, curr_state@[k] as int) == Some(
                            curr_char,
                        ) && spec_followpos(t, 0, curr_state@[k] as int).contains(q),
            ).contains(q) by {
                if pos_set(before).contains(q) {
                    let k = choose|k: int|
                        0 <= k < idx && leaf_char_of(t, curr_state@[k] as int) == Some(curr_char)
                            && spec_followpos(t, 0, curr_state@[k] as int).contains(q);
                    assert(0 <= k < idx + 1 && leaf_char_of(t, curr_state@[k] as int) == Some(
                        curr_char,
                    ) && spec_followpos(t, 0, curr_state@[k] as int).contains(q));
                } else {
                    assert(matches_char && spec_followpos(t, 0, p as int).contains(q));
                    assert(leaf_char_of(t, curr_state@[idx as int] as int) == Some(curr_char)
                        && spec_followpos(t, 0, curr_state@[idx as int] as int).contains(q));
                }
            }
            assert forall|q: int|
                Set::new(
                    |q: int|
                        exists|k: int|
                            0 <= k < idx + 1 && leaf_char_of(t, curr_state@[k] as int) == Some(
                                curr_char,
                            ) && spec_followpos(t, 0, curr_state@[k] as int).contains(q),
                ).contains(q) implies pos_set(result@).contains(q) by {
                let k = choose|k: int|
                    0 <= k < idx + 1 && leaf_char_of(t, curr_state@[k] as int) == Some(curr_char)
                        && spec_followpos(t, 0, curr_state@[k] as int).contains(q);
                if k < idx {
                    assert(Set::new(
                        |q: int|
                            exists|k: int|
                                0 <= k < idx && leaf_char_of(t, curr_state@[k] as int) == Some(
                                    curr_char,
                                ) && spec_followpos(t, 0, curr_state@[k] as int).contains(q),
                    ).contains(q));
                    assert(pos_set(before).contains(q));
                }
            }
        }
        idx += 1;
    }
    proof {
        assert forall|q: int| pos_set(result@).contains(q) implies spec_move(
            t,
            pos_set(curr_state@),
            curr_char,
        ).contains(q) by {
            let k = choose|k: int|
                0 <= k < curr_state@.len() && leaf_char_of(t, curr_state@[k] as int) == Some(
                    curr_char,
                ) && spec_followpos(t, 0, curr_state@[k] as int).contains(q);
            assert(pos_set(curr_state@).contains(curr_state@[k] as int));
        }
        assert forall|q: int|
            spec_move(t, pos_set(curr_state@), curr_char).contains(q) implies pos_set(
            result@,
        ).contains(q) by {
            let p = choose|p: int|
                #[trigger] pos_set(curr_state@).contains(p) && leaf_char_of(t, p) == Some(
                    curr_char,
                ) && spec_followpos(t, 0, p).contains(q);
            let k = choose|k: int| 0 <= k < curr_state@.len() && curr_state@[k] as int == p;
            assert(0 <= k < curr_state@.len() && leaf_char_of(t, curr_state@[k] as int) == Some(
                curr_char,
            ) && spec_followpos(t, 0, curr_state@[k] as int).contains(q));
        }
        assert(pos_set(result@) =~= spec_move(t, pos_set(curr_state@), curr_char));
        assert forall|q: int| pos_set(result@).contains(q) implies 0 <= q < t.leaf_count() by {
            let p = choose|p: int|
                #[trigger] pos_set(curr_state@).contains(p) && leaf_char_of(t, p) == Some(
                    curr_char,
                ) && spec_followpos(t, 0, p).contains(q);
            lemma_followpos_range(t, 0, p);
        }
    }
    let n = leaf_chars.len();
    proof {
        crate::fsm::utils::lemma_leaf_count_pos(t);
    }
    let is_terminal = contains_pos(&result, n - 1);
    (result, is_terminal)
}

/// Some transition out of an earlier state, among the first `rows` processed
/// ones, leads to state `j`: the worklist discovers every state from a state
/// of smaller index.
pub open spec fn incoming_below(d: Dfa, rows: int, j: int) -> bool {
    exists|i: int, c: int|
        0 <= i < rows && i < j && 0 <= c < d.alphabet@.len() && #[trigger] d.trans@[i]@[c] == Some(
            j as usize,
        )
}

/// When every state beyond the start has an incoming transition from an
/// earlier state, every state is reachable from the start state.
pub proof fn lemma_states_reachable(d: Dfa, j: int)
    requires
        0 <= j < d.states@.len(),
        forall|j2: int|
            1 <= j2 < d.states@.len() ==> #[trigger] incoming_below(
                d,
                d.trans@.len() as int,
                j2,
            ),
    ensures
        d.spec_reachable(j),
    decreases j,
{
    if j == 0 {
        crate::fsm::dfa_minimization::lemma_reach_start(d);
    } else {
        assert(incoming_below(d, d.trans@.len() as int, j));
        let (i, c) = choose|i: int, c: int|
            0 <= i < d.trans@.len() && i < j && 0 <= c < d.alphabet@.len()
                && #[trigger] d.trans@[i]@[c] == Some(j as usize);
        lemma_states_reachable(d, i);
        assert(d.edge(i, j)) by {
            assert(d.trans@[i]@[c] == Some(j as usize));
        }
        crate::fsm::dfa_minimization::lemma_reach_step(d, i, j);
    }
}

/// Some of the first `cols` entries of a transition row leads to state `j`.
pub open spec fn row_covers(nr: Seq<Option<usize>>, cols: int, j: int) -> bool {
    exists|c: int| 0 <= c < cols && #[trigger] nr[c] == Some(j as usize)
}

/// One transition entry of the built automaton is right: a recorded target
/// holds exactly the move set, and a missing one means the move set is empty.
pub open spec fn trans_entry_ok(d: Dfa, t: SyntaxTree, i: int, c: int) -> bool {
    match d.trans@[i]@[c] {
        Some(j) => j < d.states@.len() && pos_set(d.states@[j as int]@) == spec_move(
            t,
            pos_set(d.states@[i]@),
            d.alphabet@[c],
        ),
        None => spec_move(t, pos_set(d.states@[i]@), d.alphabet@[c]) == Set::<int>::empty(),
    }
}

/// The built automaton is what the construction promises: canonical distinct
/// position-set states over the tree's positions, the start state holding
/// `firstpos` of the root, acceptance meaning "holds the terminator's
/// position" (the last position), every transition carrying exactly the move
/// set, every non-start state first entered from a lower-numbered state (the
/// numbering is the worklist's discovery order), and the ordered alphabet
/// holding exactly the non-terminator leaf characters.
pub open spec fn builder_ok(d: Dfa, t: SyntaxTree) -> bool {
    let n = t.leaf_count();
    &&& d.wf()
    &&& d.states@.len() >= 1
    &&& forall|i: int| 0 <= i < d.states@.len() ==> strictly_sorted(#[trigger] d.states@[i]@)
    &&& pos_set(d.states@[0]@) == spec_firstpos(t, 0)
    &&& forall|i: int, p: int|
        0 <= i < d.states@.len() && #[trigger] pos_set(d.states@[i]@).contains(p) ==> 0 <= p < n
    &&& forall|i: int, j: int|
        0 <= i < j < d.states@.len() ==> pos_set(d.states@[i]@) != pos_set(d.states@[j]@)
    &&& forall|i: int|
        0 <= i < d.states@.len() ==> #[trigger] d.is_terminal@[i] == pos_set(
            d.states@[i]@,
        ).contains(n - 1)
    &&& forall|i: int, c: int|
        0 <= i < d.states@.len() && 0 <= c < d.alphabet@.len() ==> #[trigger] trans_entry_ok(
            d,
            t,
            i,
            c,
        )
    &&& forall|j: int| 0 <= j < d.states@.len() ==> #[trigger] d.spec_reachable(j)
    &&& forall|j: int| 1 <= j < d.states@.len() ==> #[trigger] incoming_below(d, j, j)
    &&& forall|c: char|
        char_set(d.alphabet@).contains(c) <==> exists|i: int|
            0 <= i < n && leaf_char_of(t, i) == Some(c)
}

/// Builds the DFA of an attribute-evaluated tree directly: state 0 is
/// `firstpos` of the root, and states are explored as a worklist, every
/// reachable move set becoming a state exactly once (states are deduplicated
/// as sets). A state is accepting exactly when it holds the terminator's
/// position. An empty move set leaves the transition out.
pub fn transform(root: Box<SyntaxTree>) -> (d: Dfa)
    requires
        (*root).wf(),
        (*root).leaf_count() <= usize::MAX,
    ensures
        builder_ok(d, *root),
{
    let ghost t = *root;
    let mut wrapper = NodeWrapper::new(&root);
    let (alphabet, leaf_chars) = wrapper.numerate_leaves(Ghost(t));
    calculate_first_last_pos(&mut wrapper, Ghost(t), Ghost(0));
    let n = leaf_chars.len();
    proof {
        crate::fsm::utils::lemma_leaf_count_pos(t);
    }

    let mut follow_pos: Vec<Vec<usize>> = Vec::new();
    while follow_pos.len() < n
        invariant
            follow_pos@.len() <= n,
            forall|q: int| 0 <= q < follow_pos@.len() ==> (#[trigger] follow_pos@[q]@).len() == 0,
        decreases n - follow_pos@.len(),
    {
        follow_pos.push(Vec::new());
    }
    proof {
        assert forall|q: int|
            0 <= q < follow_pos@.len() implies strictly_sorted(#[trigger] follow_pos@[q]@) by {}
    }
    let ghost table0 = follow_pos@;
    generate_follow_pos(&wrapper, &mut follow_pos, Ghost(t), Ghost(0));
    proof {
        assert forall|q: int| 0 <= q < follow_pos@.len() implies pos_set(
            #[trigger] follow_pos@[q]@,
        ) == spec_followpos(t, 0, q) by {
            assert(pos_set(table0[q]@) =~= Set::<int>::empty());
            assert(pos_set(follow_pos@[q]@) =~= spec_followpos(t, 0, q));
        }
    }

    let ghost alpha = alphabet@;
    let mut dfa = Dfa { alphabet, states: Vec::new(), trans: Vec::new(), is_terminal: Vec::new() };
    let start = wrapper.first_pos.clone();
    proof {
        assert(start@ == wrapper.first_pos@);
        lemma_pos_range(t, 0);
    }
    let start_term = contains_pos(&start, n - 1);
    dfa.add_state(&start, start_term);
    proof {
        lemma_pow2_pos(n as nat);
    }

    let mut row: usize = 0;
    while row < dfa.states.len()
        invariant
            dfa.alphabet@ == alpha,
            n == t.leaf_count(),
            n >= 1,
            follow_pos@.len() == n,
            leaf_chars@.len() == n,
            forall|q: int|
                0 <= q < follow_pos@.len() ==> strictly_sorted(#[trigger] follow_pos@[q]@),
            forall|q: int|
                0 <= q < follow_pos@.len() ==> pos_set(#[trigger] follow_pos@[q]@)
                    == spec_followpos(t, 0, q),
            forall|i: int| 0 <= i < leaf_chars@.len() ==> leaf_chars@[i] == leaf_char_of(t, i),
            dfa.trans@.len() == dfa.states@.len(),
            dfa.is_terminal@.len() == dfa.states@.len(),
            row <= dfa.states@.len(),
            dfa.states@.len() <= pow2(n as nat),
            dfa.states@.len() >= 1,
            pos_set(dfa.states@[0]@) == spec_firstpos(t, 0),
            forall|i: int|
                0 <= i < dfa.states@.len() ==> strictly_sorted(#[trigger] dfa.states@[i]@),
            forall|i: int, p: int|
                0 <= i < dfa.states@.len() && #[trigger] pos_set(dfa.states@[i]@).contains(p)
                    ==> 0 <= p < n,
            forall|i: int, j: int|
                0 <= i < j < dfa.states@.len() ==> pos_set(dfa.states@[i]@) != pos_set(
                    dfa.states@[j]@,
                ),
            forall|i: int|
                0 <= i < dfa.states@.len() ==> #[trigger] dfa.is_terminal@[i] == pos_set(
                    dfa.states@[i]@,
                ).contains(n - 1),
            forall|i: int|
                0 <= i < dfa.trans@.len() ==> #[trigger] dfa.trans@[i]@.len() == alpha.len(),
            forall|i: int, c: int|
                0 <= i < row && 0 <= c < alpha.len() ==> #[trigger] trans_entry_ok(dfa, t, i, c),
            forall|i: int, c: int|
                row <= i < dfa.trans@.len() && 0 <= c < alpha.len()
                    ==> #[trigger] dfa.trans@[i]@[c] is None,
            forall|j: int|
                1 <= j < dfa.states@.len() ==> #[trigger] incoming_below(dfa, row as int, j),
        decreases pow2(n as nat) - row,
    {
        let mut new_row: Vec<Option<usize>> = Vec::new();
        let mut col: usize = 0;
        while col < dfa.alphabet.len()
            invariant
                dfa.alphabet@ == alpha,
                n == t.leaf_count(),
                n >= 1,
                follow_pos@.len() == n,
                leaf_chars@.len() == n,
                forall|q: int|
                    0 <= q < follow_pos@.len() ==> strictly_sorted(#[trigger] follow_pos@[q]@),
                forall|q: int|
                    0 <= q < follow_pos@.len() ==> pos_set(#[trigger] follow_pos@[q]@)
                        == spec_followpos(t, 0, q),
                forall|i: int| 0 <= i < leaf_chars@.len() ==> leaf_chars@[i] == leaf_char_of(t, i),
                dfa.trans@.len() == dfa.states@.len(),
                dfa.is_terminal@.len() == dfa.states@.len(),
                row < dfa.states@.len(),
                col <= alpha.len(),
                new_row@.len() == col,
                dfa.states@.len() <= pow2(n as nat),
                pos_set(dfa.states@[0]@) == spec_firstpos(t, 0),
                forall|i: int|
                    0 <= i < dfa.states@.len() ==> strictly_sorted(#[trigger] dfa.states@[i]@),
                forall|i: int, p: int|
                    0 <= i < dfa.states@.len() && #[trigger] pos_set(dfa.states@[i]@).contains(p)
                        ==> 0 <= p < n,
                forall|i: int, j: int|
                    0 <= i < j < dfa.states@.len() ==> pos_set(dfa.states@[i]@) != pos_set(
                        dfa.states@[j]@,
                    ),
                forall|i: int|
                    0 <= i < dfa.states@.len() ==> #[trigger] dfa.is_terminal@[i] == pos_set(
                        dfa.states@[i]@,
                    ).contains(n - 1),
                forall|i: int|
                    0 <= i < dfa.trans@.len() ==> #[trigger] dfa.trans@[i]@.len() == alpha.len(),
                forall|i: int, c: int|
                    0 <= i < row && 0 <= c < alpha.len() ==> #[trigger] trans_entry_ok(
                        dfa,
                        t,
                        i,
                        c,
                    ),
                forall|i: int, c: int|
                    row <= i < dfa.trans@.len() && 0 <= c < alpha.len()
                        ==> #[trigger] dfa.trans@[i]@[c] is None,
                forall|c: int|
                    0 <= c < col ==> match #[trigger] new_row@[c] {
                        Some(j) => j < dfa.states@.len() && pos_set(dfa.states@[j as int]@)
                            == spec_move(t, pos_set(dfa.states@[row as int]@), alpha[c]),
                        None => spec_move(t, pos_set(dfa.states@[row as int]@), alpha[c])
                            == Set::<int>::empty(),
                    },
                forall|j: int|
                    1 <= j < dfa.states@.len() ==> #[trigger] incoming_below(dfa, row as int, j)
                        || (row < j && row_covers(new_row@, col as int, j)),
            decreases alpha.len() - col,
        {
            let c = dfa.alphabet[col];
            let (new_state, is_term) = form_state(
                c,
                &dfa.states[row],
                &follow_pos,
                &leaf_chars,
                Ghost(t),
            );
            let ghost dfa0 = dfa;
            let ghost row_before = new_row@;
            if new_state.len() == 0 {
                new_row.push(None);
                proof {
                    assert(pos_set(new_state@) =~= Set::<int>::empty());
                }
            } else {
                match match_state(&dfa.states, &new_state) {
                    Some(v) => {
                        new_row.push(Some(v));
                    },
                    None => {
                        dfa.add_state(&new_state, is_term);
                        new_row.push(Some(dfa.states.len() - 1));
                        proof {
                            let m = dfa.states@.len() - 1;
                            assert(dfa.states@[m]@ == new_state@);
                            assert forall|i: int, j: int|
                                0 <= i < j < dfa.states@.len() implies pos_set(dfa.states@[i]@)
                                != pos_set(dfa.states@[j]@) by {
                                if j == m {
                                    assert(dfa.states@[i] == dfa0.states@[i]);
                                    assert(pos_set(dfa.states@[i]@) != pos_set(new_state@));
                                }
                            }
                            assert forall|i: int, p: int|
                                0 <= i < dfa.states@.len() && #[trigger] pos_set(
                                dfa.states@[i]@,
                            ).contains(p) implies 0 <= p < n by {
                                if i < m {
                                    assert(dfa.states@[i] == dfa0.states@[i]);
                                }
                            }
                            let mapped = dfa.states@.map_values(|v: Vec<usize>| v@);
                            assert forall|i: int, p: int|
                                0 <= i < mapped.len() && #[trigger] pos_set(mapped[i]).contains(
                                p,
                            ) implies 0 <= p < n as nat by {
                                assert(mapped[i] == dfa.states@[i]@);
                            }
                            assert forall|i: int, j: int|
                                0 <= i < j < mapped.len() implies pos_set(mapped[i]) != pos_set(
                                mapped[j],
                            ) by {
                                assert(mapped[i] == dfa.states@[i]@);
                                assert(mapped[j] == dfa.states@[j]@);
                            }
                            lemma_states_bound(mapped, n as nat);
                            assert(dfa.states@.len() <= pow2(n as nat));
                        }
                    },
                }
            }
            col += 1;
            proof {
                assert(forall|i: int|
                    0 <= i < dfa0.states@.len() ==> dfa.states@[i] == dfa0.states@[i]);
                assert(forall|i: int|
                    0 <= i < dfa0.trans@.len() ==> dfa.trans@[i] == dfa0.trans@[i]);
                assert(forall|cc: int|
                    0 <= cc < row_before.len() ==> new_row@[cc] == row_before[cc]);
                assert forall|i: int, cc: int|
                    0 <= i < row && 0 <= cc < alpha.len() implies #[trigger] trans_entry_ok(
                    dfa,
                    t,
                    i,
                    cc,
                ) by {
                    assert(trans_entry_ok(dfa0, t, i, cc));
                    assert(dfa.trans@[i] == dfa0.trans@[i]);
                    assert(dfa.states@[i] == dfa0.states@[i]);
                    match dfa0.trans@[i]@[cc] {
                        Some(j) => {
                            assert(dfa.states@[j as int] == dfa0.states@[j as int]);
                        },
                        None => {},
                    }
                }
                assert forall|i: int, cc: int|
                    row <= i < dfa.trans@.len() && 0 <= cc < alpha.len() implies (
                #[trigger] dfa.trans@[i]@[cc]) is None by {
                    if i < dfa0.trans@.len() {
                        assert(dfa.trans@[i] == dfa0.trans@[i]);
                    } else {
                        assert(dfa.trans@[i]@ == Seq::new(alpha.len(), |cq: int| None::<usize>));
                    }
                }
                assert forall|j: int|
                    1 <= j < dfa.states@.len() implies #[trigger] incoming_below(
                    dfa,
                    row as int,
                    j,
                ) || (row < j && row_covers(new_row@, col as int, j)) by {
                    if j < dfa0.states@.len() {
                        if incoming_below(dfa0, row as int, j) {
                            let (i, cc) = choose|i: int, cc: int|
                                0 <= i < row && i < j && 0 <= cc < dfa0.alphabet@.len()
                                    && #[trigger] dfa0.trans@[i]@[cc] == Some(j as usize);
                            assert(dfa.trans@[i] == dfa0.trans@[i]);
                            assert(dfa.trans@[i]@[cc] == Some(j as usize));
                            assert(incoming_below(dfa, row as int, j));
                        } else {
                            assert(row_covers(row_before, col - 1, j));
                            let cc = choose|cc: int|
                                0 <= cc < col - 1 && #[trigger] row_before[cc] == Some(
                                    j as usize,
                                );
                            assert(new_row@[cc] == Some(j as usize));
                            assert(row_covers(new_row@, col as int, j));
                        }
                    } else {
                        assert(row < j);
                        assert(new_row@[col - 1] == Some(j as usize));
                        assert(row_covers(new_row@, col as int, j));
                    }
                }
            }
        }
        let ghost dfa1 = dfa;
        dfa.trans.set(row, new_row);
        proof {
            assert(dfa.states@ == dfa1.states@);
            assert(dfa.trans@[row as int]@ == new_row@);
            assert(forall|i: int|
                0 <= i < dfa.trans@.len() && i != row ==> dfa.trans@[i] == dfa1.trans@[i]);
            assert forall|i: int, c: int|
                0 <= i < row + 1 && 0 <= c < alpha.len() implies #[trigger] trans_entry_ok(
                dfa,
                t,
                i,
                c,
            ) by {
                if i < row {
                    assert(trans_entry_ok(dfa1, t, i, c));
                    assert(dfa.trans@[i] == dfa1.trans@[i]);
                } else {
                    assert(dfa.trans@[i]@[c] == new_row@[c]);
                }
            }
            assert forall|j: int|
                1 <= j < dfa.states@.len() implies #[trigger] incoming_below(
                dfa,
                row + 1,
                j,
            ) by {
                if incoming_below(dfa1, row as int, j) {
                    let (i, cc) = choose|i: int, cc: int|
                        0 <= i < row && i < j && 0 <= cc < dfa1.alphabet@.len()
                            && #[trigger] dfa1.trans@[i]@[cc] == Some(j as usize);
                    assert(dfa.trans@[i] == dfa1.trans@[i]);
                    assert(dfa.trans@[i]@[cc] == Some(j as usize));
                } else {
                    assert(row < j);
                    assert(row_covers(new_row@, alpha.len() as int, j));
                    let cc = choose|cc: int|
                        0 <= cc < alpha.len() && #[trigger] new_row@[cc] == Some(j as usize);
                    assert(dfa.trans@[row as int]@[cc] == Some(j as usize));
                }
            }
        }
        row += 1;
    }
    proof {
        assert forall|i: int, c: int|
            0 <= i < dfa.trans@.len() && 0 <= c < dfa.alphabet@.len() implies match (
        #[trigger] dfa.trans@[i]@[c]) {
            Some(j) => j < dfa.states@.len(),
            None => true,
        } by {
            assert(trans_entry_ok(dfa, t, i, c));
        }
        assert forall|j: int| 0 <= j < dfa.states@.len() implies #[trigger] dfa.spec_reachable(
            j,
        ) by {
            lemma_states_reachable(dfa, j);
        }
        assert forall|j: int| 1 <= j < dfa.states@.len() implies #[trigger] incoming_below(
            dfa,
            j,
            j,
        ) by {
            assert(incoming_below(dfa, row as int, j));
            let (i, cc) = choose|i: int, cc: int|
                0 <= i < row && i < j && 0 <= cc < dfa.alphabet@.len()
                    && #[trigger] dfa.trans@[i]@[cc] == Some(j as usize);
            assert(0 <= i < j && 0 <= cc < dfa.alphabet@.len() && dfa.trans@[i]@[cc] == Some(
                j as usize,
            ));
        }
    }
    dfa
}

/// Looks a canonical position-set up among the already discovered states:
/// the least index of a state holding the same set, if there is one.
pub fn match_state(states: &Vec<Vec<usize>>, new_state: &Vec<usize>) -> (r: Option<usize>)
    requires
        strictly_sorted(new_state@),
        forall|i: int| 0 <= i < states@.len() ==> strictly_sorted(#[trigger] states@[i]@),
    ensures
        match r {
            Some(i) => i < states@.len() && pos_set(states@[i as int]@) == pos_set(new_state@)
                && (forall|i2: int|
                0 <= i2 < i ==> pos_set(#[trigger] states@[i2]@) != pos_set(new_state@)),
            None => forall|i: int|
                0 <= i < states@.len() ==> pos_set(#[trigger] states@[i]@) != pos_set(new_state@),
        },
{
    let mut i: usize = 0;
    while i < states.len()
        invariant
            i <= states@.len(),
            strictly_sorted(new_state@),
            forall|k: int| 0 <= k < states@.len() ==> strictly_sorted(#[trigger] states@[k]@),
            forall|k: int|
                0 <= k < i ==> pos_set(#[trigger] states@[k]@) != pos_set(new_state@),
        decreases states@.len() - i,
    {
        let row = &states[i];
        if row.len() == new_state.len() {
            let mut k: usize = 0;
            let mut equal = true;
            while k < row.len()
                invariant
                    k <= row@.len(),
                    row@.len() == new_state@.len(),
                    row@ == states@[i as int]@,
                    equal == (row@.subrange(0, k as int) =~= new_state@.subrange(0, k as int)),
                decreases row@.len() - k,
            {
                let ghost prefix_eq = equal;
                if row[k] != new_state[k] {
                    equal = false;
                }
                proof {
                    let kk = k as int;
                    assert(row@.subrange(0, k + 1) =~= row@.subrange(0, kk).push(row@[kk]));
                    assert(new_state@.subrange(0, k + 1) =~= new_state@.subrange(
                        0,
                        k as int,
                    ).push(new_state@[k as int]));
                    if prefix_eq && row@[k as int] == new_state@[k as int] {
                        assert(row@.subrange(0, k + 1) =~= new_state@.subrange(0, k + 1));
                    } else {
                        if row@.subrange(0, k + 1) =~= new_state@.subrange(0, k + 1) {
                            assert(row@.subrange(0, k + 1)[k as int] == new_state@.subrange(
                                0,
                                k + 1,
                            )[k as int]);
                            assert(forall|m: int|
                                0 <= m < k ==> #[trigger] row@.subrange(0, k + 1)[m]
                                    == new_state@.subrange(0, k + 1)[m]);
                            assert(row@.subrange(0, k as int) =~= new_state@.subrange(
                                0,
                                k as int,
                            ));
                        }
                    }
                }
                k += 1;
            }
            if equal {
                proof {
                    assert(row@.subrange(0, row@.len() as int) =~= row@);
                    assert(new_state@.subrange(0, new_state@.len() as int) =~= new_state@);
                    assert(row@ == new_state@);
                }
                return Some(i);
            }
            proof {
                assert(row@.subrange(0, row@.len() as int) =~= row@);
                assert(new_state@.subrange(0, new_state@.len() as int) =~= new_state@);
                assert(row@ != new_state@);
                if pos_set(states@[i as int]@) == pos_set(new_state@) {
                    lemma_sorted_canonical(states@[i as int]@, new_state@);
                }
            }
        } else {
            proof {
                if pos_set(states@[i as int]@) == pos_set(new_state@) {
                    lemma_sorted_canonical(states@[i as int]@, new_state@);
                }
            }
        }
        i += 1;
    }
    None
}

} // verus!
