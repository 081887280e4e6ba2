//! The attribute evaluator's passes over the wrapper tree, and the sorted
//! position-list operations they are built on.

use vstd::prelude::*;

use crate::fsm::{
    pos_set, spec_firstpos, spec_followpos, spec_lastpos, spec_nullable, strictly_sorted,
    NodeWrapper,
};
use crate::syntax_tree::{GrammarType, Operations, SyntaxTree};

verus! {

/// Adding one element to a list adds one position to its set.
pub proof fn lemma_pos_set_push(s: Seq<usize>, x: usize)
    ensures
        pos_set(s.push(x)) =~= pos_set(s).insert(x as int),
{
    assert forall|p: int| pos_set(s.push(x)).contains(p) implies pos_set(s).insert(
        x as int,
    ).contains(p) by {
        let k = choose|k: int| 0 <= k < s.push(x).len() && s.push(x)[k] as int == p;
        if k < s.len() {
            assert(s[k] as int == p);
        }
    }
    assert forall|p: int| pos_set(s).insert(x as int).contains(p) implies pos_set(
        s.push(x),
    ).contains(p) by {
        if p == x as int {
            assert(s.push(x)[s.len() as int] as int == p);
        } else {
            let k = choose|k: int| 0 <= k < s.len() && s[k] as int == p;
            assert(s.push(x)[k] as int == p);
        }
    }
}

/// Concatenating two lists unites their sets.
pub proof fn lemma_pos_set_append(a: Seq<usize>, b: Seq<usize>)
    ensures
        pos_set(a + b) =~= pos_set(a) + pos_set(b),
{
    assert forall|p: int| pos_set(a + b).contains(p) implies (pos_set(a) + pos_set(b)).contains(
        p,
    ) by {
        let k = choose|k: int| 0 <= k < (a + b).len() && (a + b)[k] as int == p;
        if k < a.len() {
            assert(a[k] as int == p);
        } else {
            assert(b[k - a.len()] as int == p);
        }
    }
    assert forall|p: int| (pos_set(a) + pos_set(b)).contains(p) implies pos_set(a + b).contains(
        p,
    ) by {
        if pos_set(a).contains(p) {
            let k = choose|k: int| 0 <= k < a.len() && a[k] as int == p;
            assert((a + b)[k] as int == p);
        } else {
            let k = choose|k: int| 0 <= k < b.len() && b[k] as int == p;
            assert((a + b)[a.len() + k] as int == p);
        }
    }
}

/// Every tree has at least one leaf.
pub proof fn lemma_leaf_count_pos(t: SyntaxTree)
    ensures
        t.leaf_count() >= 1,
    decreases t,
{
    match (t.left, t.right) {
        (Some(l), _) => lemma_leaf_count_pos(*l),
        (None, Some(r)) => lemma_leaf_count_pos(*r),
        (None, None) => {},
    }
}

/// Both `firstpos` and `lastpos` of a subtree lie in the subtree's own range
/// of positions, `base` up to but not including `base + leaf_count`.
pub proof fn lemma_pos_range(t: SyntaxTree, base: int)
    ensures
        forall|p: int|
            spec_firstpos(t, base).contains(p) ==> base <= p < base + t.leaf_count(),
        forall|p: int|
            spec_lastpos(t, base).contains(p) ==> base <= p < base + t.leaf_count(),
    decreases t,
{
    lemma_leaf_count_pos(t);
    match (t.left, t.right) {
        (Some(l), Some(r)) => {
            lemma_pos_range(*l, base);
            lemma_pos_range(*r, base + (*l).leaf_count());
            lemma_leaf_count_pos(*l);
            lemma_leaf_count_pos(*r);
            assert(t.leaf_count() == (*l).leaf_count() + (*r).leaf_count());
            match t.entry {
                GrammarType::OPERATION(Operations::REPETITION) => {
                    assert(spec_firstpos(t, base) == spec_firstpos(*l, base));
                    assert(spec_lastpos(t, base) == spec_lastpos(*l, base));
                },
                GrammarType::OPERATION(Operations::OR) => {
                    assert(spec_firstpos(t, base) == spec_firstpos(*l, base) + spec_firstpos(
                        *r,
                        base + (*l).leaf_count(),
                    ));
                    assert(spec_lastpos(t, base) == spec_lastpos(*l, base) + spec_lastpos(
                        *r,
                        base + (*l).leaf_count(),
                    ));
                },
                GrammarType::OPERATION(Operations::CONCAT) => {
                    if spec_nullable(*l) {
                        assert(spec_firstpos(t, base) == spec_firstpos(*l, base) + spec_firstpos(
                            *r,
                            base + (*l).leaf_count(),
                        ));
                    } else {
                        assert(spec_firstpos(t, base) == spec_firstpos(*l, base));
                    }
                    if spec_nullable(*r) {
                        assert(spec_lastpos(t, base) == spec_lastpos(*l, base) + spec_lastpos(
                            *r,
                            base + (*l).leaf_count(),
                        ));
                    } else {
                        assert(spec_lastpos(t, base) == spec_lastpos(*r, base + (*l).leaf_count()));
                    }
                },
                _ => {},
            }
        },
        (Some(l), None) => {
            lemma_pos_range(*l, base);
            assert(t.leaf_count() == (*l).leaf_count());
            match t.entry {
                GrammarType::OPERATION(Operations::REPETITION) => {
                    assert(spec_firstpos(t, base) == spec_firstpos(*l, base));
                    assert(spec_lastpos(t, base) == spec_lastpos(*l, base));
                },
                GrammarType::OPERATION(Operations::TERMINATOR) => {
                    assert(spec_firstpos(t, base) == set![base]);
                    assert(spec_lastpos(t, base) == set![base]);
                },
                GrammarType::CHAR(_) => {
                    assert(spec_firstpos(t, base) == set![base]);
                    assert(spec_lastpos(t, base) == set![base]);
                },
                _ => {
                    assert(spec_firstpos(t, base) == Set::<int>::empty());
                    assert(spec_lastpos(t, base) == Set::<int>::empty());
                },
            }
        },
        (None, Some(r)) => {
            lemma_pos_range(*r, base);
            assert(t.leaf_count() == (*r).leaf_count());
            match t.entry {
                GrammarType::OPERATION(Operations::TERMINATOR) => {
                    assert(spec_firstpos(t, base) == set![base]);
                    assert(spec_lastpos(t, base) == set![base]);
                },
                GrammarType::CHAR(_) => {
                    assert(spec_firstpos(t, base) == set![base]);
                    assert(spec_lastpos(t, base) == set![base]);
                },
                _ => {
                    assert(spec_firstpos(t, base) == Set::<int>::empty());
                    assert(spec_lastpos(t, base) == Set::<int>::empty());
                },
            }
        },
        (None, None) => {
            assert(t.leaf_count() == 1);
            match t.entry {
                GrammarType::OPERATION(Operations::TERMINATOR) => {
                    assert(spec_firstpos(t, base) == set![base]);
                    assert(spec_lastpos(t, base) == set![base]);
                },
                GrammarType::CHAR(_) => {
                    assert(spec_firstpos(t, base) == set![base]);
                    assert(spec_lastpos(t, base) == set![base]);
                },
                _ => {
                    assert(spec_firstpos(t, base) == Set::<int>::empty());
                    assert(spec_lastpos(t, base) == Set::<int>::empty());
                },
            }
        },
    }
    assert forall|p: int|
        spec_firstpos(t, base).contains(p) implies base <= p < base + t.leaf_count() by {}
    assert forall|p: int|
        spec_lastpos(t, base).contains(p) implies base <= p < base + t.leaf_count() by {}
}

/// Concatenating strictly sorted lists, every position of the first below
/// `m` and every position of the second at or above `m`, is strictly sorted.
pub proof fn lemma_sorted_append(a: Seq<usize>, b: Seq<usize>, m: int)
    requires
        strictly_sorted(a),
        strictly_sorted(b),
        forall|p: int| pos_set(a).contains(p) ==> p < m,
        forall|p: int| pos_set(b).contains(p) ==> p >= m,
    ensures
        strictly_sorted(a + b),
{
    assert forall|i: int, j: int| 0 <= i < j < (a + b).len() implies (a + b)[i] < (a + b)[j] by {
        if i < a.len() && j >= a.len() {
            assert(pos_set(a).contains(a[i] as int));
            assert(pos_set(b).contains(b[j - a.len()] as int));
        } else if i >= a.len() {
            assert(b[i - a.len()] < b[j - a.len()]);
        }
    }
}

/// Concatenates two position lists.
pub fn append_pos(a: &Vec<usize>, b: &Vec<usize>) -> (r: Vec<usize>)
    ensures
        r@ == a@ + b@,
{
    let mut r: Vec<usize> = Vec::new();
    let mut k: usize = 0;
    while k < a.len()
        invariant
            k <= a@.len(),
            r@ == a@.subrange(0, k as int),
        decreases a@.len() - k,
    {
        r.push(a[k]);
        k += 1;
    }
    assert(r@ =~= a@);
    let mut k: usize = 0;
    while k < b.len()
        invariant
            k <= b@.len(),
            r@ == a@ + b@.subrange(0, k as int),
        decreases b@.len() - k,
    {
        r.push(b[k]);
        k += 1;
        assert(r@ =~= a@ + b@.subrange(0, k as int));
    }
    assert(r@ =~= a@ + b@);
    r
}

/// Whether a position list holds `x`.
pub fn contains_pos(v: &Vec<usize>, x: usize) -> (r: bool)
    ensures
        r == pos_set(v@).contains(x as int),
{
    let mut k: usize = 0;
    while k < v.len()
        invariant
            k <= v@.len(),
            forall|j: int| 0 <= j < k ==> v@[j] != x,
        decreases v@.len() - k,
    {
        if v[k] == x {
            assert(pos_set(v@).contains(x as int));
            return true;
        }
        k += 1;
    }
    assert(!pos_set(v@).contains(x as int)) by {
        if pos_set(v@).contains(x as int) {
            let j = choose|j: int| 0 <= j < v@.len() && v@[j] as int == x as int;
            assert(v@[j] != x);
        }
    }
    false
}

/// Merges two strictly sorted position lists into the strictly sorted list of
/// their union.
pub fn union_sorted(a: &Vec<usize>, b: &Vec<usize>) -> (r: Vec<usize>)
    requires
        strictly_sorted(a@),
        strictly_sorted(b@),
    ensures
        strictly_sorted(r@),
        pos_set(r@) == pos_set(a@) + pos_set(b@),
{
    let mut r: Vec<usize> = Vec::new();
    let mut i: usize = 0;
    let mut j: usize = 0;
    while i < a.len() || j < b.len()
        invariant
            i <= a@.len(),
            j <= b@.len(),
            strictly_sorted(a@),
            strictly_sorted(b@),
            strictly_sorted(r@),
            pos_set(r@) =~= pos_set(a@.subrange(0, i as int)) + pos_set(b@.subrange(0, j as int)),
            forall|k: int| i <= k < a@.len() ==> !pos_set(r@).contains(a@[k] as int) && (r@.len()
                > 0 ==> r@.last() < a@[k]),
            forall|k: int| j <= k < b@.len() ==> !pos_set(r@).contains(b@[k] as int) && (r@.len()
                > 0 ==> r@.last() < b@[k]),
        decreases a@.len() - i + b@.len() - j,
    {
        let ghost r_old = r@;
        let take_a: bool = if i < a.len() && j < b.len() {
            a[i] <= b[j]
        } else {
            i < a.len()
        };
        if take_a {
            let x = a[i];
            proof {
                lemma_pos_set_push(r@, x);
                assert(a@.subrange(0, i + 1) =~= a@.subrange(0, i as int).push(x));
                lemma_pos_set_push(a@.subrange(0, i as int), x);
            }
            if j < b.len() && b[j] == x {
                proof {
                    assert(b@.subrange(0, j + 1) =~= b@.subrange(0, j as int).push(x));
                    lemma_pos_set_push(b@.subrange(0, j as int), x);
                }
                j += 1;
            }
            r.push(x);
            i += 1;
        } else {
            let x = b[j];
            proof {
                lemma_pos_set_push(r@, x);
                assert(b@.subrange(0, j + 1) =~= b@.subrange(0, j as int).push(x));
                lemma_pos_set_push(b@.subrange(0, j as int), x);
            }
            r.push(x);
            j += 1;
        }
    }
    proof {
        assert(a@.subrange(0, a@.len() as int) =~= a@);
        assert(b@.subrange(0, b@.len() as int) =~= b@);
    }
    r
}

/// A one-element list holds a one-position set.
pub proof fn lemma_pos_set_singleton(x: usize)
    ensures
        pos_set(seq![x]) =~= set![x as int],
{
    assert(seq![x][0] as int == x as int);
}

/// Computes `first_pos` and `last_pos` bottom up for every node of the
/// wrapper, from the rules: a leaf holds its own position; a repetition
/// passes its operand's sets through; a union takes unions; a concatenation
/// takes the left firstpos (plus the right one if the left operand is
/// nullable) and the right lastpos (plus the left one if the right operand is
/// nullable).
pub fn calculate_first_last_pos(
    root: &mut NodeWrapper,
    Ghost(t): Ghost<SyntaxTree>,
    Ghost(base): Ghost<int>,
)
    requires
        old(root).matches_tree(t),
        old(root).nullable_ok(t),
        old(root).indices_ok(t, base),
        t.wf(),
        base >= 0,
    ensures
        final(root).matches_tree(t),
        final(root).nullable_ok(t),
        final(root).indices_ok(t, base),
        final(root).poslists_ok(t, base),
    decreases t,
{
    let mut new_first: Vec<usize> = Vec::new();
    let mut new_last: Vec<usize> = Vec::new();
    let is_or = root.entry == GrammarType::OPERATION(Operations::OR);
    match (&mut root.left, &mut root.right) {
        (Some(l), Some(r)) => {
            let ghost lt = *t.left->Some_0;
            let ghost rt = *t.right->Some_0;
            let ghost rbase = base + lt.leaf_count();
            calculate_first_last_pos(&mut **l, Ghost(lt), Ghost(base));
            calculate_first_last_pos(&mut **r, Ghost(rt), Ghost(rbase));
            proof {
                lemma_pos_range(lt, base);
                lemma_pos_range(rt, rbase);
            }
            if is_or {
                new_first = append_pos(&l.first_pos, &r.first_pos);
                new_last = append_pos(&l.last_pos, &r.last_pos);
                proof {
                    lemma_sorted_append(l.first_pos@, r.first_pos@, rbase);
                    lemma_pos_set_append(l.first_pos@, r.first_pos@);
                    lemma_sorted_append(l.last_pos@, r.last_pos@, rbase);
                    lemma_pos_set_append(l.last_pos@, r.last_pos@);
                    assert(spec_firstpos(t, base) == spec_firstpos(lt, base) + spec_firstpos(
                        rt,
                        rbase,
                    ));
                    assert(spec_lastpos(t, base) == spec_lastpos(lt, base) + spec_lastpos(
                        rt,
                        rbase,
                    ));
                }
            } else {
                proof {
                    assert(t.entry == GrammarType::OPERATION(Operations::CONCAT));
                }
                if l.nullable {
                    new_first = append_pos(&l.first_pos, &r.first_pos);
                    proof {
                        lemma_sorted_append(l.first_pos@, r.first_pos@, rbase);
                        lemma_pos_set_append(l.first_pos@, r.first_pos@);
                        assert(spec_firstpos(t, base) == spec_firstpos(lt, base) + spec_firstpos(
                            rt,
                            rbase,
                        ));
                    }
                } else {
                    new_first = l.first_pos.clone();
                    proof {
                        assert(new_first@ == l.first_pos@);
                        assert(spec_firstpos(t, base) == spec_firstpos(lt, base));
                    }
                }
                if r.nullable {
                    new_last = append_pos(&l.last_pos, &r.last_pos);
                    proof {
                        lemma_sorted_append(l.last_pos@, r.last_pos@, rbase);
                        lemma_pos_set_append(l.last_pos@, r.last_pos@);
                        assert(spec_lastpos(t, base) == spec_lastpos(lt, base) + spec_lastpos(
                            rt,
                            rbase,
                        ));
                    }
                } else {
                    new_last = r.last_pos.clone();
                    proof {
                        assert(new_last@ == r.last_pos@);
                        assert(spec_lastpos(t, base) == spec_lastpos(rt, rbase));
                    }
                }
            }
        },
        (Some(l), None) => {
            let ghost lt = *t.left->Some_0;
            proof {
                assert(t.entry == GrammarType::OPERATION(Operations::REPETITION));
            }
            calculate_first_last_pos(&mut **l, Ghost(lt), Ghost(base));
            new_first = l.first_pos.clone();
            new_last = l.last_pos.clone();
            proof {
                assert(new_first@ == l.first_pos@);
                assert(new_last@ == l.last_pos@);
                assert(spec_firstpos(t, base) == spec_firstpos(lt, base));
                assert(spec_lastpos(t, base) == spec_lastpos(lt, base));
            }
        },
        (None, Some(_)) => {
            proof {
                assert(false);
            }
        },
        (None, None) => {
            let k: usize = match root.leaf_index {
                Some(k) => k,
                None => 0,
            };
            proof {
                assert(root.leaf_index == Some(k) && k as int == base);
                lemma_pos_set_singleton(k);
                assert(spec_firstpos(t, base) == set![base]);
                assert(spec_lastpos(t, base) == set![base]);
            }
            new_first.push(k);
            new_last.push(k);
            proof {
                assert(new_first@ =~= seq![k]);
                assert(new_last@ =~= seq![k]);
            }
        },
    }
    root.first_pos = new_first;
    root.last_pos = new_last;
}

/// Unions `add` into the table row of every position listed in `targets`.
fn distribute_follow(
    follow_pos: &mut Vec<Vec<usize>>,
    targets: &Vec<usize>,
    add: &Vec<usize>,
)
    requires
        strictly_sorted(targets@),
        strictly_sorted(add@),
        forall|k: int|
            0 <= k < targets@.len() ==> (#[trigger] targets@[k]) < old(follow_pos)@.len(),
        forall|q: int|
            0 <= q < old(follow_pos)@.len() ==> strictly_sorted(#[trigger] old(follow_pos)@[q]@),
    ensures
        final(follow_pos)@.len() == old(follow_pos)@.len(),
        forall|q: int|
            0 <= q < final(follow_pos)@.len() ==> strictly_sorted(
                #[trigger] final(follow_pos)@[q]@,
            ),
        forall|q: int|
            0 <= q < final(follow_pos)@.len() ==> pos_set(#[trigger] final(follow_pos)@[q]@)
                == pos_set(old(follow_pos)@[q]@) + (if pos_set(targets@).contains(q) {
                pos_set(add@)
            } else {
                Set::<int>::empty()
            }),
{
    let ghost table0 = follow_pos@;
    let mut idx: usize = 0;
    while idx < targets.len()
        invariant
            idx <= targets@.len(),
            strictly_sorted(targets@),
            strictly_sorted(add@),
            forall|k: int| 0 <= k < targets@.len() ==> (#[trigger] targets@[k]) < table0.len(),
            follow_pos@.len() == table0.len(),
            forall|q: int|
                0 <= q < follow_pos@.len() ==> strictly_sorted(#[trigger] follow_pos@[q]@),
            forall|q: int|
                0 <= q < follow_pos@.len() ==> pos_set(#[trigger] follow_pos@[q]@) == pos_set(
                    table0[q]@,
                ) + (if pos_set(targets@.subrange(0, idx as int)).contains(q) {
                    pos_set(add@)
                } else {
                    Set::<int>::empty()
                }),
        decreases targets@.len() - idx,
    {
        let p = targets[idx];
        let merged = union_sorted(&follow_pos[p], add);
        let ghost before = follow_pos@;
        follow_pos.set(p, merged);
        proof {
            assert(targets@.subrange(0, idx + 1) =~= targets@.subrange(0, idx as int).push(p));
            lemma_pos_set_push(targets@.subrange(0, idx as int), p);
            // p is new in the prefix, since targets is strictly sorted
            assert(!pos_set(targets@.subrange(0, idx as int)).contains(p as int)) by {
                if pos_set(targets@.subrange(0, idx as int)).contains(p as int) {
                    let k = choose|k: int|
                        0 <= k < idx && targets@.subrange(0, idx as int)[k] as int == p as int;
                    assert(targets@[k] < targets@[idx as int]);
                }
            }
            assert forall|q: int| 0 <= q < follow_pos@.len() implies pos_set(
                #[trigger] follow_pos@[q]@,
            ) == pos_set(table0[q]@) + (if pos_set(targets@.subrange(0, idx + 1)).contains(q) {
                pos_set(add@)
            } else {
                Set::<int>::empty()
            }) by {
                if q == p as int {
                    assert(pos_set(follow_pos@[q]@) =~= pos_set(table0[q]@) + pos_set(add@));
                } else {
                    assert(follow_pos@[q] == before[q]);
                }
            }
        }
        idx += 1;
    }
    proof {
        assert(targets@.subrange(0, targets@.len() as int) =~= targets@);
    }
}

/// Accumulates the followpos contributions of every node of the subtree into
/// the shared table: for a concatenation, the right operand's firstpos
/// follows every position of the left operand's lastpos; for a repetition,
/// its firstpos follows every position of its lastpos.
pub fn generate_follow_pos(
    root: &NodeWrapper,
    follow_pos: &mut Vec<Vec<usize>>,
    Ghost(t): Ghost<SyntaxTree>,
    Ghost(base): Ghost<int>,
)
    requires
        root.matches_tree(t),
        root.poslists_ok(t, base),
        t.wf(),
        base >= 0,
        base + t.leaf_count() <= old(follow_pos)@.len(),
        forall|q: int|
            0 <= q < old(follow_pos)@.len() ==> strictly_sorted(#[trigger] old(follow_pos)@[q]@),
    ensures
        final(follow_pos)@.len() == old(follow_pos)@.len(),
        forall|q: int|
            0 <= q < final(follow_pos)@.len() ==> strictly_sorted(
                #[trigger] final(follow_pos)@[q]@,
            ),
        forall|q: int|
            0 <= q < final(follow_pos)@.len() ==> pos_set(#[trigger] final(follow_pos)@[q]@)
                == pos_set(old(follow_pos)@[q]@) + spec_followpos(t, base, q),
    decreases t,
{
    let ghost table0 = follow_pos@;
    match (&root.left, &root.right) {
        (Some(l), Some(r)) => {
            let ghost lt = *t.left->Some_0;
            let ghost rt = *t.right->Some_0;
            let ghost rbase = base + lt.leaf_count();
            proof {
                lemma_pos_range(lt, base);
                lemma_pos_range(rt, rbase);
            }
            if root.entry == GrammarType::OPERATION(Operations::CONCAT) {
                proof {
                    assert(t.entry == GrammarType::OPERATION(Operations::CONCAT));
                    assert((**l).poslists_ok(lt, base));
                    assert((**r).poslists_ok(rt, rbase));
                    assert(pos_set((**l).last_pos@) == spec_lastpos(lt, base));
                    assert forall|k: int| 0 <= k < (**l).last_pos@.len() implies (
                    #[trigger] (**l).last_pos@[k]) < follow_pos@.len() by {
                        assert(pos_set((**l).last_pos@).contains((**l).last_pos@[k] as int));
                    }
                }
                distribute_follow(follow_pos, &l.last_pos, &r.first_pos);
            }
            let ghost table1 = follow_pos@;
            generate_follow_pos(&**l, follow_pos, Ghost(lt), Ghost(base));
            let ghost table2 = follow_pos@;
            generate_follow_pos(&**r, follow_pos, Ghost(rt), Ghost(rbase));
            proof {
                if t.entry == GrammarType::OPERATION(Operations::CONCAT) {
                    assert(pos_set((**l).last_pos@) == spec_lastpos(lt, base));
                    assert(pos_set((**r).first_pos@) == spec_firstpos(rt, rbase));
                    assert forall|q: int| 0 <= q < follow_pos@.len() implies pos_set(
                        #[trigger] follow_pos@[q]@,
                    ) == pos_set(table0[q]@) + spec_followpos(t, base, q) by {
                        assert(spec_followpos(t, base, q) == spec_followpos(lt, base, q)
                            + spec_followpos(rt, rbase, q) + (if spec_lastpos(
                            lt,
                            base,
                        ).contains(q) {
                            spec_firstpos(rt, rbase)
                        } else {
                            Set::<int>::empty()
                        }));
                        assert(pos_set(follow_pos@[q]@) =~= pos_set(table0[q]@)
                            + spec_followpos(t, base, q));
                    }
                } else {
                    assert(t.entry == GrammarType::OPERATION(Operations::OR));
                    assert forall|q: int| 0 <= q < follow_pos@.len() implies pos_set(
                        #[trigger] follow_pos@[q]@,
                    ) == pos_set(table0[q]@) + spec_followpos(t, base, q) by {
                        assert(spec_followpos(t, base, q) == spec_followpos(lt, base, q)
                            + spec_followpos(rt, rbase, q));
                        assert(pos_set(follow_pos@[q]@) =~= pos_set(table0[q]@)
                            + spec_followpos(t, base, q));
                    }
                }
            }
        },
        (Some(l), None) => {
            let ghost lt = *t.left->Some_0;
            proof {
                assert(t.entry == GrammarType::OPERATION(Operations::REPETITION));
                lemma_pos_range(lt, base);
                lemma_pos_range(t, base);
                assert(pos_set(root.last_pos@) == spec_lastpos(t, base));
                assert(pos_set(root.first_pos@) == spec_firstpos(t, base));
                assert(spec_lastpos(t, base) == spec_lastpos(lt, base));
                assert(spec_firstpos(t, base) == spec_firstpos(lt, base));
                assert forall|k: int| 0 <= k < root.last_pos@.len() implies (
                #[trigger] root.last_pos@[k]) < follow_pos@.len() by {
                    assert(pos_set(root.last_pos@).contains(root.last_pos@[k] as int));
                }
            }
            distribute_follow(follow_pos, &root.last_pos, &root.first_pos);
            let ghost table1 = follow_pos@;
            generate_follow_pos(&**l, follow_pos, Ghost(lt), Ghost(base));
            proof {
                assert forall|q: int| 0 <= q < follow_pos@.len() implies pos_set(
                    #[trigger] follow_pos@[q]@,
                ) == pos_set(table0[q]@) + spec_followpos(t, base, q) by {
                    assert(spec_followpos(t, base, q) == spec_followpos(lt, base, q) + (
                    if spec_lastpos(lt, base).contains(q) {
                        spec_firstpos(lt, base)
                    } else {
                        Set::<int>::empty()
                    }));
                    assert(pos_set(follow_pos@[q]@) =~= pos_set(table0[q]@) + spec_followpos(
                        t,
                        base,
                        q,
                    ));
                }
            }
        },
        (None, Some(_)) => {
            proof {
                assert(false);
            }
        },
        (None, None) => {
            proof {
                assert forall|q: int| 0 <= q < follow_pos@.len() implies pos_set(
                    #[trigger] follow_pos@[q]@,
                ) == pos_set(table0[q]@) + spec_followpos(t, base, q) by {
                    assert(spec_followpos(t, base, q) == Set::<int>::empty());
                    assert(pos_set(follow_pos@[q]@) =~= pos_set(table0[q]@) + Set::<int>::empty());
                }
            }
        },
    }
}

/// Assigns consecutive leaf indices, starting at `next`, to the leaves of the
/// wrapper in left-to-right order, and returns the next free index. Inner
/// nodes keep their absent leaf index, and the position lists of every node
/// are untouched.
pub fn map_leaf(root: &mut NodeWrapper, next: usize, Ghost(t): Ghost<SyntaxTree>) -> (r: usize)
    requires
        old(root).matches_tree(t),
        old(root).nullable_ok(t),
        old(root).inner_indices_none(),
        next + t.leaf_count() <= usize::MAX,
    ensures
        final(root).matches_tree(t),
        final(root).nullable_ok(t),
        final(root).indices_ok(t, next as int),
        final(root).inner_indices_none(),
        old(root).same_poslists(*final(root)),
        r == next + t.leaf_count(),
    decreases t,
{
    let is_leaf = root.left.is_none() && root.right.is_none();
    if is_leaf {
        root.leaf_index = Some(next);
        return next + 1;
    }
    let mut counter = next;
    match &mut root.left {
        Some(l) => {
            let ghost lt = *t.left->Some_0;
            counter = map_leaf(&mut **l, counter, Ghost(lt));
        },
        None => {},
    }
    match &mut root.right {
        Some(r) => {
            let ghost rt = *t.right->Some_0;
            counter = map_leaf(&mut **r, counter, Ghost(rt));
        },
        None => {},
    }
    counter
}

} // verus!

