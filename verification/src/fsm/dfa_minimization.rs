//! DFA minimization by Myhill-Nerode table-filling over reverse transitions:
//! state pairs are marked distinguishable starting from accepting versus
//! non-accepting and propagated backwards breadth first; unmarked pairs merge
//! into blocks, and the quotient automaton is emitted with unreachable blocks
//! dropped.

use vstd::prelude::*;
use vstd::seq_lib::seq_to_set_is_finite;
use vstd::set_lib::{lemma_int_range, lemma_len_subset, set_int_range};

use crate::fsm::{pos_set, strictly_sorted, Dfa};

verus! {

/// The total successor function used by the minimizer: a missing transition
/// routes to the implicit sink, state number `n` (one past the real states),
/// and the sink loops to itself.
pub open spec fn succ_total(a: Dfa, u: int, c: int) -> int {
    if 0 <= u < a.states@.len() {
        match a.trans@[u]@[c] {
            Some(v) => v as int,
            None => a.states@.len() as int,
        }
    } else {
        a.states@.len() as int
    }
}

/// Whether state `u` is accepting; the sink never is.
pub open spec fn spec_acc(a: Dfa, u: int) -> bool {
    0 <= u < a.states@.len() && a.is_terminal@[u]
}

/// The predecessors of `u` on symbol `c`, sink included, under the total
/// successor function.
pub open spec fn spec_preds(a: Dfa, u: int, c: int) -> Set<int> {
    Set::new(|v: int| 0 <= v <= a.states@.len() && succ_total(a, v, c) == u)
}

/// Builds the reverse-transition index over the real states plus the
/// implicit sink: entry `[u][c]` lists every state (sink included) whose
/// total successor on `c` is `u`.
pub fn get_reverse_trans(a: &Dfa) -> (r: Vec<Vec<Vec<usize>>>)
    requires
        a.wf(),
        a.states@.len() < usize::MAX,
    ensures
        r@.len() == a.states@.len() + 1,
        forall|u: int| 0 <= u < r@.len() ==> (#[trigger] r@[u]@).len() == a.alphabet@.len(),
        forall|u: int, c: int|
            0 <= u < r@.len() && 0 <= c < a.alphabet@.len() ==> pos_set(#[trigger] r@[u]@[c]@)
                == spec_preds(*a, u, c),
{
    let n = a.states.len();
    let mut r: Vec<Vec<Vec<usize>>> = Vec::new();
    let mut u: usize = 0;
    while u < n + 1
        invariant
            a.wf(),
            n == a.states@.len(),
            n < usize::MAX,
            u <= n + 1,
            r@.len() == u,
            forall|w: int| 0 <= w < u ==> (#[trigger] r@[w]@).len() == a.alphabet@.len(),
            forall|w: int, c: int|
                0 <= w < u && 0 <= c < a.alphabet@.len() ==> pos_set(#[trigger] r@[w]@[c]@)
                    == spec_preds(*a, w, c),
        decreases n + 1 - u,
    {
        let mut row: Vec<Vec<usize>> = Vec::new();
        let mut c: usize = 0;
        while c < a.alphabet.len()
            invariant
                a.wf(),
                n == a.states@.len(),
                n < usize::MAX,
                u <= n,
                c <= a.alphabet@.len(),
                row@.len() == c,
                forall|cc: int|
                    0 <= cc < c ==> pos_set(#[trigger] row@[cc]@) == spec_preds(*a, u as int, cc),
            decreases a.alphabet@.len() - c,
        {
            let mut lst: Vec<usize> = Vec::new();
            let mut v: usize = 0;
            while v < n + 1
                invariant
                    a.wf(),
                    n == a.states@.len(),
                    n < usize::MAX,
                    u <= n,
                    c < a.alphabet@.len(),
                    v <= n + 1,
                    pos_set(lst@) =~= Set::new(
                        |w: int| 0 <= w < v && succ_total(*a, w, c as int) == u as int,
                    ),
                decreases n + 1 - v,
            {
                let target: usize = if v < n {
                    match a.trans[v][c] {
                        Some(w) => w,
                        None => n,
                    }
                } else {
                    n
                };
                let ghost before = lst@;
                if target == u {
                    lst.push(v);
                }
                proof {
                    if target == u {
                        crate::fsm::utils::lemma_pos_set_push(before, v);
                    }
                    assert(pos_set(lst@) =~= Set::new(
                        |w: int| 0 <= w < v + 1 && succ_total(*a, w, c as int) == u as int,
                    ));
                }
                v += 1;
            }
            proof {
                assert(pos_set(lst@) =~= spec_preds(*a, u as int, c as int));
            }
            row.push(lst);
            c += 1;
        }
        r.push(row);
        u += 1;
    }
    r
}

/// The number of `false` entries in a row.
pub open spec fn cf_row(r: Seq<bool>) -> nat
    decreases r.len(),
{
    if r.len() == 0 {
        0
    } else {
        cf_row(r.drop_last()) + (if r.last() {
            0nat
        } else {
            1nat
        })
    }
}

/// The number of `false` entries in a matrix.
pub open spec fn cf_mat(m: Seq<Seq<bool>>) -> nat
    decreases m.len(),
{
    if m.len() == 0 {
        0
    } else {
        cf_mat(m.drop_last()) + cf_row(m.last())
    }
}

/// Setting one `false` entry of a row to `true` lowers its count by one.
pub proof fn lemma_cf_row_update(r: Seq<bool>, j: int)
    requires
        0 <= j < r.len(),
        !r[j],
    ensures
        cf_row(r.update(j, true)) + 1 == cf_row(r),
    decreases r.len(),
{
    if j == r.len() - 1 {
        assert(r.update(j, true).drop_last() =~= r.drop_last());
    } else {
        lemma_cf_row_update(r.drop_last(), j);
        assert(r.update(j, true).drop_last() =~= r.drop_last().update(j, true));
    }
}

/// Setting one `false` entry of a matrix to `true` lowers its count by one.
pub proof fn lemma_cf_mat_update(m: Seq<Seq<bool>>, i: int, j: int)
    requires
        0 <= i < m.len(),
        0 <= j < m[i].len(),
        !m[i][j],
    ensures
        cf_mat(m.update(i, m[i].update(j, true))) + 1 == cf_mat(m),
    decreases m.len(),
{
    if i == m.len() - 1 {
        assert(m.update(i, m[i].update(j, true)).drop_last() =~= m.drop_last());
        lemma_cf_row_update(m[i], j);
    } else {
        lemma_cf_mat_update(m.drop_last(), i, j);
        assert(m.update(i, m[i].update(j, true)).drop_last() =~= m.drop_last().update(
            i,
            m[i].update(j, true),
        ));
        assert(m.update(i, m[i].update(j, true)).last() =~= m.last());
    }
}

/// The matrix view of an exec matrix.
pub open spec fn mat(m: Seq<Vec<bool>>) -> Seq<Seq<bool>> {
    m.map_values(|r: Vec<bool>| r@)
}

/// Sets entry `(i, j)` of a matrix of flags to `true`.
fn set_mark(m: &mut Vec<Vec<bool>>, i: usize, j: usize)
    requires
        i < old(m)@.len(),
        j < old(m)@[i as int]@.len(),
    ensures
        final(m)@.len() == old(m)@.len(),
        mat(final(m)@) == mat(old(m)@).update(i as int, mat(old(m)@)[i as int].update(
            j as int,
            true,
        )),
{
    let mut row = m[i].clone();
    proof {
        assert(row@ == m@[i as int]@);
    }
    row.set(j, true);
    m.set(i, row);
    proof {
        assert(mat(m@) =~= mat(old(m)@).update(i as int, mat(old(m)@)[i as int].update(
            j as int,
            true,
        )));
    }
}

/// The pair `{i, j}` still waits in the queue, in either orientation, at or
/// after position `head`.
pub open spec fn pending(q: Seq<(usize, usize)>, head: int, i: int, j: int) -> bool {
    exists|k: int|
        head <= k < q.len() && (((#[trigger] q[k]).0 == i && q[k].1 == j) || (q[k].0 == j
            && q[k].1 == i))
}

/// Every pair of predecessors of `i` and `j` on a common symbol is marked.
pub open spec fn preds_done(a: Dfa, mm: Seq<Seq<bool>>, i: int, j: int) -> bool {
    forall|c: int, r: int, s: int|
        0 <= c < a.alphabet@.len() && #[trigger] spec_preds(a, i, c).contains(r)
            && #[trigger] spec_preds(a, j, c).contains(s) ==> mm[r][s]
}

/// A word of symbol indices over the automaton's alphabet.
pub open spec fn word_ok(a: Dfa, w: Seq<int>) -> bool {
    forall|k: int| 0 <= k < w.len() ==> 0 <= #[trigger] w[k] < a.alphabet@.len()
}

/// Two states some input word tells apart: running it leaves exactly one of
/// the two in an accepting state.
pub open spec fn distinguishable(a: Dfa, i: int, j: int) -> bool {
    exists|w: Seq<int>|
        #[trigger] word_ok(a, w) && spec_acc(a, run_total(a, i, w)) != spec_acc(
            a,
            run_total(a, j, w),
        )
}

/// Every marked pair carries a distinguishing witness word in the ghost map.
pub open spec fn marks_witnessed(a: Dfa, mm: Seq<Seq<bool>>, wit: Map<(int, int), Seq<int>>) -> bool {
    forall|i: int, j: int|
        0 <= i <= a.states@.len() && 0 <= j <= a.states@.len() && #[trigger] mm[i][j]
            ==> wit.contains_key((i, j)) && word_ok(a, wit[(i, j)]) && spec_acc(
            a,
            run_total(a, i, wit[(i, j)]),
        ) != spec_acc(a, run_total(a, j, wit[(i, j)]))
}

/// Prepending one symbol to a word is one total-successor step before it.
pub proof fn lemma_run_cons(a: Dfa, u: int, c: int, w: Seq<int>)
    ensures
        run_total(a, u, seq![c] + w) == run_total(a, succ_total(a, u, c), w),
{
    assert((seq![c] + w)[0] == c);
    assert((seq![c] + w).drop_first() =~= w);
}

/// The pair is marked for a visible reason: the two sides split on
/// acceptance, or some symbol leads them to a marked pair.
pub open spec fn marked_reason(a: Dfa, mm: Seq<Seq<bool>>, i: int, j: int) -> bool {
    spec_acc(a, i) != spec_acc(a, j) || exists|c: int|
        0 <= c < a.alphabet@.len() && #[trigger] mm[succ_total(a, i, c)][succ_total(a, j, c)]
}

/// Marks the distinguishable state pairs (over the real states plus the
/// implicit sink) by table filling: a pair of which exactly one side is
/// accepting is marked outright, and marking propagates backwards through
/// the reverse-transition index, breadth first, until the queue drains.
pub fn build_table(a: &Dfa, rev_trans: &Vec<Vec<Vec<usize>>>) -> (m: Vec<Vec<bool>>)
    requires
        a.wf(),
        a.states@.len() < usize::MAX,
        rev_trans@.len() == a.states@.len() + 1,
        forall|u: int|
            0 <= u < rev_trans@.len() ==> (#[trigger] rev_trans@[u]@).len() == a.alphabet@.len(),
        forall|u: int, c: int|
            0 <= u < rev_trans@.len() && 0 <= c < a.alphabet@.len() ==> pos_set(
                #[trigger] rev_trans@[u]@[c]@,
            ) == spec_preds(*a, u, c),
    ensures
        mat(m@).len() == a.states@.len() + 1,
        forall|i: int| 0 <= i < mat(m@).len() ==> (#[trigger] mat(m@)[i]).len() == a.states@.len()
            + 1,
        forall|i: int, j: int|
            0 <= i <= a.states@.len() && 0 <= j <= a.states@.len() ==> #[trigger] mat(
                m@,
            )[i][j] == mat(m@)[j][i],
        forall|i: int, j: int|
            0 <= i <= a.states@.len() && 0 <= j <= a.states@.len() && #[trigger] mat(
                m@,
            )[i][j] ==> i != j,
        forall|i: int, j: int|
            0 <= i <= a.states@.len() && 0 <= j <= a.states@.len() && spec_acc(*a, i) != spec_acc(
                *a,
                j,
            ) ==> #[trigger] mat(m@)[i][j],
        forall|i: int, j: int|
            0 <= i <= a.states@.len() && 0 <= j <= a.states@.len() && mat(m@)[i][j]
                ==> #[trigger] marked_reason(*a, mat(m@), i, j),
        forall|i: int, j: int|
            0 <= i <= a.states@.len() && 0 <= j <= a.states@.len() && mat(m@)[i][j]
                ==> #[trigger] distinguishable(*a, i, j),
        forall|i: int, j: int, c: int|
            #![trigger mat(m@)[i][j], succ_total(*a, i, c)]
            0 <= i <= a.states@.len() && 0 <= j <= a.states@.len() && 0 <= c < a.alphabet@.len()
                && !mat(m@)[i][j] ==> !mat(m@)[succ_total(*a, i, c)][succ_total(*a, j, c)],
{
    let n = a.states.len();
    let total = n + 1;

    let mut marked: Vec<Vec<bool>> = Vec::new();
    let mut i: usize = 0;
    while i < total
        invariant
            i <= total,
            marked@.len() == i,
            forall|w: int| 0 <= w < i ==> (#[trigger] mat(marked@)[w]).len() == total,
            forall|w: int, z: int| 0 <= w < i && 0 <= z < total ==> !(#[trigger] mat(
                marked@,
            )[w][z]),
        decreases total - i,
    {
        let mut rrow: Vec<bool> = Vec::new();
        let mut j: usize = 0;
        while j < total
            invariant
                j <= total,
                rrow@.len() == j,
                forall|z: int| 0 <= z < j ==> !(#[trigger] rrow@[z]),
            decreases total - j,
        {
            rrow.push(false);
            j += 1;
        }
        let ghost mm0 = marked@;
        marked.push(rrow);
        proof {
            assert(mat(marked@) =~= mat(mm0).push(rrow@));
        }
        i += 1;
    }

    let mut queue: Vec<(usize, usize)> = Vec::new();

    // for every marked pair, a word that tells the two states apart
    let ghost mut wit: Map<(int, int), Seq<int>> = Map::empty();

    // every pair of which exactly one side is accepting is distinguishable
    let mut i: usize = 0;
    while i < total
        invariant
            a.wf(),
            n == a.states@.len(),
            n < usize::MAX,
            total == n + 1,
            i <= total,
            mat(marked@).len() == total,
            forall|w: int| 0 <= w < total ==> (#[trigger] mat(marked@)[w]).len() == total,
            forall|w: int, z: int|
                0 <= w < total && 0 <= z < total ==> #[trigger] mat(marked@)[w][z] == mat(
                    marked@,
                )[z][w],
            forall|w: int, z: int|
                0 <= w < total && 0 <= z < total && #[trigger] mat(marked@)[w][z]
                    ==> marked_reason(*a, mat(marked@), w, z),
                marks_witnessed(*a, mat(marked@), wit),
            forall|w: int, z: int|
                0 <= w < total && 0 <= z < total && #[trigger] mat(marked@)[w][z] ==> spec_acc(
                    *a,
                    w,
                ) != spec_acc(*a, z),
            forall|w: int, z: int|
                0 <= w < i && 0 <= z < total && spec_acc(*a, w) != spec_acc(*a, z)
                    ==> #[trigger] mat(marked@)[w][z],
            forall|w: int, z: int|
                0 <= w < total && 0 <= z < total && #[trigger] mat(marked@)[w][z] ==> pending(
                    queue@,
                    0,
                    w,
                    z,
                ),
            forall|k: int|
                0 <= k < queue@.len() ==> (#[trigger] queue@[k]).0 < total && queue@[k].1 < total
                    && mat(marked@)[queue@[k].0 as int][queue@[k].1 as int],
        decreases total - i,
    {
        let acc_i = i < n && a.is_terminal[i];
        let mut j: usize = 0;
        while j < total
            invariant
                a.wf(),
                n == a.states@.len(),
                n < usize::MAX,
                total == n + 1,
                i < total,
                j <= total,
                acc_i == spec_acc(*a, i as int),
                mat(marked@).len() == total,
                forall|w: int| 0 <= w < total ==> (#[trigger] mat(marked@)[w]).len() == total,
                forall|w: int, z: int|
                    0 <= w < total && 0 <= z < total ==> #[trigger] mat(marked@)[w][z] == mat(
                        marked@,
                    )[z][w],
                forall|w: int, z: int|
                    0 <= w < total && 0 <= z < total && #[trigger] mat(marked@)[w][z]
                        ==> marked_reason(*a, mat(marked@), w, z),
                    marks_witnessed(*a, mat(marked@), wit),
                forall|w: int, z: int|
                    0 <= w < total && 0 <= z < total && #[trigger] mat(marked@)[w][z]
                        ==> spec_acc(*a, w) != spec_acc(*a, z),
                forall|w: int, z: int|
                    0 <= w < i && 0 <= z < total && spec_acc(*a, w) != spec_acc(*a, z)
                        ==> #[trigger] mat(marked@)[w][z],
                forall|z: int|
                    0 <= z < j && spec_acc(*a, i as int) != spec_acc(*a, z) ==> #[trigger] mat(
                        marked@,
                    )[i as int][z],
                forall|w: int, z: int|
                    0 <= w < total && 0 <= z < total && #[trigger] mat(marked@)[w][z]
                        ==> pending(queue@, 0, w, z),
                forall|k: int|
                    0 <= k < queue@.len() ==> (#[trigger] queue@[k]).0 < total && queue@[k].1
                        < total && mat(marked@)[queue@[k].0 as int][queue@[k].1 as int],
            decreases total - j,
        {
            let acc_j = j < n && a.is_terminal[j];
            if acc_i != acc_j {
                proof {
                    assert(marked@.len() == mat(marked@).len());
                    assert(marked@[i as int]@ == mat(marked@)[i as int]);
                }
                let already = marked[i][j];
                if !already {
                    let ghost m0 = mat(marked@);
                    let ghost q0 = queue@;
                    let ghost wit0 = wit;
                    proof {
                        wit = wit.insert((i as int, j as int), Seq::<int>::empty());
                        wit = wit.insert((j as int, i as int), Seq::<int>::empty());
                    }
                    set_mark(&mut marked, i, j);
                    proof {
                        assert(marked@.len() == mat(marked@).len());
                        assert(mat(marked@)[j as int].len() == total);
                        assert(marked@[j as int]@ == mat(marked@)[j as int]);
                    }
                    set_mark(&mut marked, j, i);
                    queue.push((i, j));
                    proof {
                        assert(mat(marked@)[i as int][j as int]);
                        assert(mat(marked@)[j as int][i as int]);
                        assert forall|w: int, z: int|
                            0 <= w < total && 0 <= z < total && m0[w][z] implies mat(
                            marked@,
                        )[w][z] by {}
                        assert forall|w: int, z: int|
                            0 <= w < total && 0 <= z < total && #[trigger] mat(
                            marked@,
                        )[w][z] implies marked_reason(*a, mat(marked@), w, z) by {
                            if m0[w][z] {
                                assert(marked_reason(*a, m0, w, z));
                                if spec_acc(*a, w) == spec_acc(*a, z) {
                                    let c = choose|c: int|
                                        0 <= c < a.alphabet@.len() && #[trigger] m0[succ_total(
                                            *a,
                                            w,
                                            c,
                                        )][succ_total(*a, z, c)];
                                    assert(mat(marked@)[succ_total(*a, w, c)][succ_total(
                                        *a,
                                        z,
                                        c,
                                    )]);
                                }
                            } else {
                                assert(spec_acc(*a, w) != spec_acc(*a, z));
                            }
                        }
                        assert forall|w: int, z: int|
                            0 <= w <= a.states@.len() && 0 <= z <= a.states@.len()
                                && #[trigger] mat(marked@)[w][z] implies wit.contains_key(
                            (w, z),
                        ) && word_ok(*a, wit[(w, z)]) && spec_acc(*a, run_total(*a, w, wit[(w, z)]))
                            != spec_acc(*a, run_total(*a, z, wit[(w, z)])) by {
                            if m0[w][z] {
                                assert((w, z) != (i as int, j as int) && (w, z) != (
                                j as int,
                                i as int,
                                ));
                                assert(wit[(w, z)] == wit0[(w, z)]);
                            } else {
                                assert((w, z) == (i as int, j as int) || (w, z) == (
                                j as int,
                                i as int,
                                ));
                                assert(wit[(w, z)] =~= Seq::<int>::empty());
                                assert(run_total(*a, w, wit[(w, z)]) == w);
                                assert(run_total(*a, z, wit[(w, z)]) == z);
                            }
                        }
                        assert(marks_witnessed(*a, mat(marked@), wit));
                        assert(queue@.len() == q0.len() + 1);
                        assert(forall|k: int| 0 <= k < q0.len() ==> queue@[k] == q0[k]);
                        assert(queue@[q0.len() as int] == (i, j));
                        assert forall|w: int, z: int|
                            0 <= w < total && 0 <= z < total && #[trigger] mat(
                            marked@,
                        )[w][z] implies pending(queue@, 0, w, z) by {
                            if m0[w][z] {
                                assert(pending(q0, 0, w, z));
                                let k = choose|k: int|
                                    0 <= k < q0.len() && (((#[trigger] q0[k]).0 == w && q0[k].1
                                        == z) || (q0[k].0 == z && q0[k].1 == w));
                                assert(queue@[k] == q0[k]);
                            } else {
                                assert(queue@[q0.len() as int] == (i, j));
                            }
                        }
                    }
                }
            }
            j += 1;
        }
        i += 1;
    }

    // propagate backwards, breadth first
    let mut head: usize = 0;
    while head < queue.len()
        invariant
            a.wf(),
            n == a.states@.len(),
            n < usize::MAX,
            total == n + 1,
            rev_trans@.len() == total,
            forall|u: int|
                0 <= u < rev_trans@.len() ==> (#[trigger] rev_trans@[u]@).len()
                    == a.alphabet@.len(),
            forall|u: int, c: int|
                0 <= u < rev_trans@.len() && 0 <= c < a.alphabet@.len() ==> pos_set(
                    #[trigger] rev_trans@[u]@[c]@,
                ) == spec_preds(*a, u, c),
            head <= queue@.len(),
            mat(marked@).len() == total,
            forall|w: int| 0 <= w < total ==> (#[trigger] mat(marked@)[w]).len() == total,
            forall|w: int, z: int|
                0 <= w < total && 0 <= z < total ==> #[trigger] mat(marked@)[w][z] == mat(
                    marked@,
                )[z][w],
            forall|w: int, z: int|
                0 <= w < total && 0 <= z < total && #[trigger] mat(marked@)[w][z]
                    ==> marked_reason(*a, mat(marked@), w, z),
                marks_witnessed(*a, mat(marked@), wit),
            forall|w: int, z: int|
                0 <= w < total && 0 <= z < total && #[trigger] mat(marked@)[w][z] ==> w != z,
            forall|w: int, z: int|
                0 <= w < total && 0 <= z < total && spec_acc(*a, w) != spec_acc(*a, z)
                    ==> #[trigger] mat(marked@)[w][z],
            forall|w: int, z: int|
                0 <= w < total && 0 <= z < total && #[trigger] mat(marked@)[w][z] ==> pending(
                    queue@,
                    head as int,
                    w,
                    z,
                ) || preds_done(*a, mat(marked@), w, z),
            forall|k: int|
                0 <= k < queue@.len() ==> (#[trigger] queue@[k]).0 < total && queue@[k].1 < total
                    && mat(marked@)[queue@[k].0 as int][queue@[k].1 as int],
        decreases 2 * cf_mat(mat(marked@)) + queue@.len() - head,
    {
        let (u, v) = queue[head];
        let ghost cf0 = cf_mat(mat(marked@));
        let ghost qlen0 = queue@.len();
        let mut c: usize = 0;
        while c < a.alphabet.len()
            invariant
                a.wf(),
                n == a.states@.len(),
                n < usize::MAX,
                total == n + 1,
                rev_trans@.len() == total,
                forall|uu: int|
                    0 <= uu < rev_trans@.len() ==> (#[trigger] rev_trans@[uu]@).len()
                        == a.alphabet@.len(),
                forall|uu: int, cc: int|
                    0 <= uu < rev_trans@.len() && 0 <= cc < a.alphabet@.len() ==> pos_set(
                        #[trigger] rev_trans@[uu]@[cc]@,
                    ) == spec_preds(*a, uu, cc),
                head < queue@.len(),
                u == queue@[head as int].0,
                v == queue@[head as int].1,
                u < total,
                v < total,
                c <= a.alphabet@.len(),
                mat(marked@).len() == total,
                forall|w: int| 0 <= w < total ==> (#[trigger] mat(marked@)[w]).len() == total,
                forall|w: int, z: int|
                    0 <= w < total && 0 <= z < total ==> #[trigger] mat(marked@)[w][z] == mat(
                        marked@,
                    )[z][w],
                forall|w: int, z: int|
                    0 <= w < total && 0 <= z < total && #[trigger] mat(marked@)[w][z]
                        ==> marked_reason(*a, mat(marked@), w, z),
                    marks_witnessed(*a, mat(marked@), wit),
                forall|w: int, z: int|
                    0 <= w < total && 0 <= z < total && #[trigger] mat(marked@)[w][z] ==> w != z,
                forall|w: int, z: int|
                    0 <= w < total && 0 <= z < total && spec_acc(*a, w) != spec_acc(*a, z)
                        ==> #[trigger] mat(marked@)[w][z],
                forall|w: int, z: int|
                    0 <= w < total && 0 <= z < total && #[trigger] mat(marked@)[w][z]
                        ==> pending(queue@, head as int, w, z) || preds_done(
                        *a,
                        mat(marked@),
                        w,
                        z,
                    ),
                forall|k: int|
                    0 <= k < queue@.len() ==> (#[trigger] queue@[k]).0 < total && queue@[k].1
                        < total && mat(marked@)[queue@[k].0 as int][queue@[k].1 as int],
                forall|cc: int, r: int, s: int|
                    0 <= cc < c && #[trigger] spec_preds(*a, u as int, cc).contains(r)
                        && #[trigger] spec_preds(*a, v as int, cc).contains(s) ==> mat(
                        marked@,
                    )[r][s] && mat(marked@)[s][r],
                2 * cf_mat(mat(marked@)) + queue@.len() <= 2 * cf0 + qlen0,
            decreases a.alphabet@.len() - c,
        {
            let r_list = &rev_trans[u][c];
            proof {
                assert forall|k: int|
                    0 <= k < r_list@.len() implies (#[trigger] r_list@[k]) < total by {
                    assert(pos_set(r_list@).contains(r_list@[k] as int));
                }
            }
            let mut ri: usize = 0;
            while ri < r_list.len()
                invariant
                    a.wf(),
                    n == a.states@.len(),
                    total == n + 1,
                    u < total,
                    v < total,
                    c < a.alphabet@.len(),
                    r_list@ == rev_trans@[u as int]@[c as int]@,
                    pos_set(r_list@) == spec_preds(*a, u as int, c as int),
                    rev_trans@.len() == total,
                    forall|uu: int|
                        0 <= uu < rev_trans@.len() ==> (#[trigger] rev_trans@[uu]@).len()
                            == a.alphabet@.len(),
                    forall|uu: int, cc: int|
                        0 <= uu < rev_trans@.len() && 0 <= cc < a.alphabet@.len() ==> pos_set(
                            #[trigger] rev_trans@[uu]@[cc]@,
                        ) == spec_preds(*a, uu, cc),
                    head < queue@.len(),
                    u == queue@[head as int].0,
                    v == queue@[head as int].1,
                    ri <= r_list@.len(),
                    forall|k: int| 0 <= k < r_list@.len() ==> (#[trigger] r_list@[k]) < total,
                    mat(marked@).len() == total,
                    forall|w: int| 0 <= w < total ==> (#[trigger] mat(marked@)[w]).len() == total,
                    forall|w: int, z: int|
                        0 <= w < total && 0 <= z < total ==> #[trigger] mat(marked@)[w][z] == mat(
                            marked@,
                        )[z][w],
                    forall|w: int, z: int|
                        0 <= w < total && 0 <= z < total && #[trigger] mat(marked@)[w][z]
                            ==> marked_reason(*a, mat(marked@), w, z),
                        marks_witnessed(*a, mat(marked@), wit),
                    forall|w: int, z: int|
                        0 <= w < total && 0 <= z < total && #[trigger] mat(marked@)[w][z] ==> w
                            != z,
                    forall|w: int, z: int|
                        0 <= w < total && 0 <= z < total && spec_acc(*a, w) != spec_acc(*a, z)
                            ==> #[trigger] mat(marked@)[w][z],
                    forall|w: int, z: int|
                        0 <= w < total && 0 <= z < total && #[trigger] mat(marked@)[w][z]
                            ==> pending(queue@, head as int, w, z) || preds_done(
                            *a,
                            mat(marked@),
                            w,
                            z,
                        ),
                    forall|k: int|
                        0 <= k < queue@.len() ==> (#[trigger] queue@[k]).0 < total && queue@[k].1
                            < total && mat(marked@)[queue@[k].0 as int][queue@[k].1 as int],
                    forall|cc: int, r: int, s: int|
                        0 <= cc < c && #[trigger] spec_preds(*a, u as int, cc).contains(r)
                            && #[trigger] spec_preds(*a, v as int, cc).contains(s) ==> mat(
                            marked@,
                        )[r][s] && mat(marked@)[s][r],
                    forall|k: int, s: int|
                        0 <= k < ri && #[trigger] spec_preds(*a, v as int, c as int).contains(s)
                            ==> mat(marked@)[#[trigger] r_list@[k] as int][s] && mat(
                            marked@,
                        )[s][r_list@[k] as int],
                    2 * cf_mat(mat(marked@)) + queue@.len() <= 2 * cf0 + qlen0,
                decreases r_list@.len() - ri,
            {
                let r = r_list[ri];
                proof {
                    assert(pos_set(r_list@).contains(r as int));
                }
                let s_list = &rev_trans[v][c];
                proof {
                    assert forall|z: int|
                        0 <= z < s_list@.len() implies (#[trigger] s_list@[z]) < total by {
                        assert(pos_set(s_list@).contains(s_list@[z] as int));
                    }
                }
                let mut si: usize = 0;
                while si < s_list.len()
                    invariant
                        a.wf(),
                        n == a.states@.len(),
                        total == n + 1,
                        u < total,
                        v < total,
                        c < a.alphabet@.len(),
                        r < total,
                        spec_preds(*a, u as int, c as int).contains(r as int),
                        s_list@ == rev_trans@[v as int]@[c as int]@,
                        pos_set(s_list@) == spec_preds(*a, v as int, c as int),
                        head < queue@.len(),
                        u == queue@[head as int].0,
                        v == queue@[head as int].1,
                        si <= s_list@.len(),
                        forall|k: int| 0 <= k < r_list@.len() ==> (#[trigger] r_list@[k]) < total,
                        forall|z: int| 0 <= z < s_list@.len() ==> (#[trigger] s_list@[z]) < total,
                        r_list@ == rev_trans@[u as int]@[c as int]@,
                        pos_set(r_list@) == spec_preds(*a, u as int, c as int),
                        ri < r_list@.len(),
                        r == r_list@[ri as int],
                        mat(marked@).len() == total,
                        forall|w: int| 0 <= w < total ==> (#[trigger] mat(marked@)[w]).len()
                            == total,
                        forall|w: int, z: int|
                            0 <= w < total && 0 <= z < total ==> #[trigger] mat(
                                marked@,
                            )[w][z] == mat(marked@)[z][w],
                        forall|w: int, z: int|
                            0 <= w < total && 0 <= z < total && #[trigger] mat(marked@)[w][z]
                                ==> marked_reason(*a, mat(marked@), w, z),
                            marks_witnessed(*a, mat(marked@), wit),
                        forall|w: int, z: int|
                            0 <= w < total && 0 <= z < total && #[trigger] mat(marked@)[w][z]
                                ==> w != z,
                        forall|w: int, z: int|
                            0 <= w < total && 0 <= z < total && spec_acc(*a, w) != spec_acc(
                                *a,
                                z,
                            ) ==> #[trigger] mat(marked@)[w][z],
                        forall|w: int, z: int|
                            0 <= w < total && 0 <= z < total && #[trigger] mat(marked@)[w][z]
                                ==> pending(queue@, head as int, w, z) || preds_done(
                                *a,
                                mat(marked@),
                                w,
                                z,
                            ),
                        forall|k: int|
                            0 <= k < queue@.len() ==> (#[trigger] queue@[k]).0 < total
                                && queue@[k].1 < total && mat(marked@)[queue@[k].0 as int][
                            queue@[k].1 as int],
                        forall|cc: int, rr: int, ss: int|
                            0 <= cc < c && #[trigger] spec_preds(*a, u as int, cc).contains(rr)
                                && #[trigger] spec_preds(*a, v as int, cc).contains(ss) ==> mat(
                                marked@,
                            )[rr][ss] && mat(marked@)[ss][rr],
                        forall|k: int, ss: int|
                            0 <= k < ri && #[trigger] spec_preds(
                                *a,
                                v as int,
                                c as int,
                            ).contains(ss) ==> mat(marked@)[#[trigger] r_list@[k] as int][ss]
                                && mat(marked@)[ss][r_list@[k] as int],
                        forall|z: int|
                            0 <= z < si ==> mat(marked@)[r as int][#[trigger] s_list@[z] as int]
                                && mat(marked@)[s_list@[z] as int][r as int],
                        2 * cf_mat(mat(marked@)) + queue@.len() <= 2 * cf0 + qlen0,
                    decreases s_list@.len() - si,
                {
                    let s = s_list[si];
                    proof {
                        assert(pos_set(s_list@).contains(s as int));
                    }
                    proof {
                        assert(marked@.len() == mat(marked@).len());
                        assert(marked@[r as int]@ == mat(marked@)[r as int]);
                    }
                    if !marked[r][s] {
                        let ghost m0 = mat(marked@);
                        let ghost q0 = queue@;
                        let ghost wit0 = wit;
                        let ghost wuv = wit[(u as int, v as int)];
                        let ghost w_new = seq![c as int] + wuv;
                        proof {
                            assert(m0[u as int][v as int]);
                            assert(wit0.contains_key((u as int, v as int)));
                            wit = wit.insert((r as int, s as int), w_new);
                            wit = wit.insert((s as int, r as int), w_new);
                        }
                        proof {
                            assert(r != s) by {
                                if r == s {
                                    assert(succ_total(*a, r as int, c as int) == u as int);
                                    assert(succ_total(*a, s as int, c as int) == v as int);
                                    assert(mat(marked@)[u as int][v as int]);
                                }
                            }
                            lemma_cf_mat_update(m0, r as int, s as int);
                        }
                        set_mark(&mut marked, r, s);
                        proof {
                            let m1 = mat(marked@);
                            assert(!m1[s as int][r as int]);
                            lemma_cf_mat_update(m1, s as int, r as int);
                        }
                        set_mark(&mut marked, s, r);
                        queue.push((r, s));
                        proof {
                            let m2 = mat(marked@);
                            assert(m2[r as int][s as int] && m2[s as int][r as int]);
                            assert forall|x: int, y: int|
                                0 <= x < total && 0 <= y < total && m0[x][y] implies m2[x][y] by {}
                            assert(succ_total(*a, r as int, c as int) == u as int);
                            assert(succ_total(*a, s as int, c as int) == v as int);
                            assert(m2[u as int][v as int] && m2[v as int][u as int]);
                            assert(word_ok(*a, w_new)) by {
                                assert forall|k: int|
                                    0 <= k < w_new.len() implies 0 <= #[trigger] w_new[k]
                                    < a.alphabet@.len() by {
                                    if k == 0 {
                                        assert(w_new[0] == c as int);
                                    } else {
                                        assert(w_new[k] == wuv[k - 1]);
                                    }
                                }
                            }
                            lemma_run_cons(*a, r as int, c as int, wuv);
                            lemma_run_cons(*a, s as int, c as int, wuv);
                            assert(run_total(*a, r as int, w_new) == run_total(
                                *a,
                                u as int,
                                wuv,
                            ));
                            assert(run_total(*a, s as int, w_new) == run_total(
                                *a,
                                v as int,
                                wuv,
                            ));
                            assert forall|w: int, z: int|
                                0 <= w <= a.states@.len() && 0 <= z <= a.states@.len()
                                    && #[trigger] m2[w][z] implies wit.contains_key((w, z))
                                && word_ok(*a, wit[(w, z)]) && spec_acc(*a, run_total(
                                *a,
                                w,
                                wit[(w, z)],
                            )) != spec_acc(*a, run_total(*a, z, wit[(w, z)])) by {
                                if m0[w][z] {
                                    assert((w, z) != (r as int, s as int) && (w, z) != (
                                    s as int,
                                    r as int,
                                    ));
                                    assert(wit[(w, z)] == wit0[(w, z)]);
                                } else {
                                    assert((w, z) == (r as int, s as int) || (w, z) == (
                                    s as int,
                                    r as int,
                                    ));
                                    assert(wit[(w, z)] == w_new);
                                }
                            }
                            assert(marks_witnessed(*a, mat(marked@), wit));
                            assert forall|w: int, z: int|
                                0 <= w < total && 0 <= z < total && #[trigger] m2[w][z] implies
                                marked_reason(*a, m2, w, z) by {
                                if m0[w][z] {
                                    assert(marked_reason(*a, m0, w, z));
                                    if spec_acc(*a, w) == spec_acc(*a, z) {
                                        let cc = choose|cc: int|
                                            0 <= cc < a.alphabet@.len() && #[trigger] m0[
                                            succ_total(*a, w, cc)][succ_total(*a, z, cc)];
                                        assert(m2[succ_total(*a, w, cc)][succ_total(
                                            *a,
                                            z,
                                            cc,
                                        )]);
                                    }
                                } else if w == r as int && z == s as int {
                                    assert(m2[succ_total(*a, w, c as int)][succ_total(
                                        *a,
                                        z,
                                        c as int,
                                    )]);
                                } else {
                                    assert(w == s as int && z == r as int);
                                    assert(m2[succ_total(*a, w, c as int)][succ_total(
                                        *a,
                                        z,
                                        c as int,
                                    )]);
                                }
                            }
                            assert(queue@.last() == (r, s));
                            assert(queue@.len() == q0.len() + 1);
                            assert(forall|k: int| 0 <= k < q0.len() ==> queue@[k] == q0[k]);
                            assert forall|w: int, z: int|
                                0 <= w < total && 0 <= z < total && #[trigger] m2[w][z] implies
                                pending(queue@, head as int, w, z) || preds_done(
                                *a,
                                m2,
                                w,
                                z,
                            ) by {
                                if m0[w][z] {
                                    if pending(q0, head as int, w, z) {
                                        let k = choose|k: int|
                                            head <= k < q0.len() && (((#[trigger] q0[k]).0 == w
                                                && q0[k].1 == z) || (q0[k].0 == z && q0[k].1
                                                == w));
                                        assert(queue@[k] == q0[k]);
                                        assert(pending(queue@, head as int, w, z));
                                    } else {
                                        assert(preds_done(*a, m0, w, z));
                                        assert forall|cc: int, rr: int, ss: int|
                                            0 <= cc < a.alphabet@.len() && #[trigger] spec_preds(
                                                *a,
                                                w,
                                                cc,
                                            ).contains(rr) && #[trigger] spec_preds(
                                                *a,
                                                z,
                                                cc,
                                            ).contains(ss) implies m2[rr][ss] by {
                                            assert(m0[rr][ss]);
                                            assert(0 <= rr < total && 0 <= ss < total);
                                        }
                                    }
                                } else {
                                    assert((w == r as int && z == s as int) || (w == s as int
                                        && z == r as int));
                                    assert(queue@[queue@.len() - 1] == (r, s));
                                    assert(pending(queue@, head as int, w, z));
                                }
                            }
                            assert(2 * cf_mat(m2) + queue@.len() <= 2 * cf_mat(m0) + q0.len()
                                - 1);
                        }
                    }
                    si += 1;
                }
                proof {
                    assert forall|ss: int|
                        #[trigger] spec_preds(*a, v as int, c as int).contains(ss) implies mat(
                        marked@,
                    )[r as int][ss] && mat(marked@)[ss][r as int] by {
                        assert(pos_set(s_list@).contains(ss));
                        let z = choose|z: int| 0 <= z < s_list@.len() && s_list@[z] as int == ss;
                        assert(mat(marked@)[r as int][s_list@[z] as int]);
                        assert(mat(marked@)[s_list@[z] as int][r as int]);
                    }
                }
                ri += 1;
            }
            proof {
                assert forall|rr: int, ss: int|
                    #[trigger] spec_preds(*a, u as int, c as int).contains(rr)
                        && #[trigger] spec_preds(*a, v as int, c as int).contains(ss) implies mat(
                    marked@,
                )[rr][ss] && mat(marked@)[ss][rr] by {
                    assert(pos_set(r_list@).contains(rr));
                    let k = choose|k: int| 0 <= k < r_list@.len() && r_list@[k] as int == rr;
                    assert(mat(marked@)[r_list@[k] as int][ss]);
                    assert(mat(marked@)[ss][r_list@[k] as int]);
                }
            }
            c += 1;
        }
        head += 1;
        proof {
            assert forall|w: int, z: int|
                0 <= w < total && 0 <= z < total && #[trigger] mat(marked@)[w][z] implies pending(
                queue@,
                head as int,
                w,
                z,
            ) || preds_done(*a, mat(marked@), w, z) by {
                if pending(queue@, head - 1, w, z) {
                    let k = choose|k: int|
                        head - 1 <= k < queue@.len() && (((#[trigger] queue@[k]).0 == w
                            && queue@[k].1 == z) || (queue@[k].0 == z && queue@[k].1 == w));
                    if k == head - 1 {
                        // this is the pair that was just processed, in one of
                        // its two orientations
                        assert forall|cc: int, rr: int, ss: int|
                            0 <= cc < a.alphabet@.len() && #[trigger] spec_preds(
                                *a,
                                w,
                                cc,
                            ).contains(rr) && #[trigger] spec_preds(*a, z, cc).contains(
                                ss,
                            ) implies mat(marked@)[rr][ss] by {
                            if w == u as int && z == v as int {
                                assert(mat(marked@)[rr][ss]);
                            } else {
                                assert(w == v as int && z == u as int);
                                assert(spec_preds(*a, u as int, cc).contains(ss));
                                assert(spec_preds(*a, v as int, cc).contains(rr));
                                assert(mat(marked@)[ss][rr]);
                            }
                        }
                    } else {
                        assert(pending(queue@, head as int, w, z));
                    }
                }
            }
        }
    }
    proof {
        assert forall|i: int, j: int, c: int|
            #![trigger mat(marked@)[i][j], succ_total(*a, i, c)]
            0 <= i <= a.states@.len() && 0 <= j <= a.states@.len() && 0 <= c < a.alphabet@.len()
                && !mat(marked@)[i][j] implies !mat(marked@)[succ_total(*a, i, c)][succ_total(
            *a,
            j,
            c,
        )] by {
            let si = succ_total(*a, i, c);
            let sj = succ_total(*a, j, c);
            if mat(marked@)[si][sj] {
                assert(0 <= si < total && 0 <= sj < total);
                assert(preds_done(*a, mat(marked@), si, sj));
                assert(spec_preds(*a, si, c).contains(i));
                assert(spec_preds(*a, sj, c).contains(j));
                assert(mat(marked@)[i][j]);
            }
        }
    }
    proof {
        assert forall|i: int, j: int|
            0 <= i <= a.states@.len() && 0 <= j <= a.states@.len() && mat(
                marked@,
            )[i][j] implies #[trigger] distinguishable(*a, i, j) by {
            let w = wit[(i, j)];
            assert(word_ok(*a, w) && spec_acc(*a, run_total(*a, i, w)) != spec_acc(
                *a,
                run_total(*a, j, w),
            ));
        }
    }
    marked
}

/// Groups the real states into equivalence-class blocks from the unmarked
/// pairs: states are scanned in order, each not yet grouped state opens a new
/// block as its leader, and every later state unmarked against the leader
/// joins it. Returns the block of each state and the leader of each block.
pub fn calc_components(marked: &Vec<Vec<bool>>, n: usize) -> (r: (Vec<usize>, Vec<usize>))
    requires
        mat(marked@).len() == n + 1,
        forall|i: int| 0 <= i < mat(marked@).len() ==> (#[trigger] mat(marked@)[i]).len() == n + 1,
        forall|i: int| 0 <= i <= n ==> !(#[trigger] mat(marked@)[i][i]),
    ensures
        r.0@.len() == n,
        forall|i: int| 0 <= i < n ==> (#[trigger] r.0@[i]) < r.1@.len(),
        forall|b: int|
            0 <= b < r.1@.len() ==> (#[trigger] r.1@[b]) < n && r.0@[r.1@[b] as int] == b,
        forall|i: int|
            0 <= i < n ==> !mat(marked@)[#[trigger] r.1@[r.0@[i] as int] as int][i],
        forall|i: int| 0 <= i < n ==> (#[trigger] r.1@[r.0@[i] as int]) <= i,
        forall|b1: int, b2: int| 0 <= b1 < b2 < r.1@.len() ==> r.1@[b1] < r.1@[b2],
        forall|i: int, b: int|
            #![trigger r.0@[i], r.1@[b]]
            0 <= i < n && 0 <= b < r.0@[i] ==> mat(marked@)[r.1@[b] as int][i],
        n > 0 ==> r.0@[0] == 0 && r.1@.len() > 0 && r.1@[0] == 0,
{
    let mut comp: Vec<usize> = Vec::new();
    let mut assigned: Vec<bool> = Vec::new();
    let mut k: usize = 0;
    while k < n
        invariant
            k <= n,
            comp@.len() == k,
            assigned@.len() == k,
            forall|i: int| 0 <= i < k ==> !(#[trigger] assigned@[i]),
        decreases n - k,
    {
        comp.push(0);
        assigned.push(false);
        k += 1;
    }

    let mut leaders: Vec<usize> = Vec::new();
    let mut i: usize = 0;
    while i < n
        invariant
            i <= n,
            comp@.len() == n,
            assigned@.len() == n,
            mat(marked@).len() == n + 1,
            forall|w: int|
                0 <= w < mat(marked@).len() ==> (#[trigger] mat(marked@)[w]).len() == n + 1,
            forall|w: int| 0 <= w <= n ==> !(#[trigger] mat(marked@)[w][w]),
            forall|w: int| 0 <= w < i ==> #[trigger] assigned@[w],
            forall|w: int| 0 <= w < n && #[trigger] assigned@[w] ==> comp@[w] < leaders@.len(),
            forall|b: int|
                0 <= b < leaders@.len() ==> (#[trigger] leaders@[b]) < n && comp@[leaders@[b] as int]
                    == b && assigned@[leaders@[b] as int],
            forall|w: int|
                0 <= w < n && #[trigger] assigned@[w] ==> !mat(marked@)[leaders@[comp@[w] as int] as int][w]
                    && leaders@[comp@[w] as int] <= w,
            forall|b: int| 0 <= b < leaders@.len() ==> (#[trigger] leaders@[b]) < i,
            forall|b1: int, b2: int| 0 <= b1 < b2 < leaders@.len() ==> leaders@[b1] < leaders@[b2],
            forall|w: int, b: int|
                #![trigger comp@[w], leaders@[b]]
                0 <= w < n && assigned@[w] && 0 <= b < comp@[w] ==> mat(
                    marked@,
                )[leaders@[b] as int][w],
            forall|w: int, b: int|
                #![trigger assigned@[w], leaders@[b]]
                0 <= w < n && !assigned@[w] && 0 <= b < leaders@.len() ==> mat(
                    marked@,
                )[leaders@[b] as int][w],
            i > 0 ==> (assigned@[0] && comp@[0] == 0 && leaders@.len() > 0 && leaders@[0] == 0),
            i == 0 ==> leaders@.len() == 0 && (forall|w: int| 0 <= w < n ==> !(#[trigger] assigned@[w])),
        decreases n - i,
    {
        if !assigned[i] {
            let b = leaders.len();
            leaders.push(i);
            comp.set(i, b);
            assigned.set(i, true);
            let mut j: usize = i + 1;
            while j < n
                invariant
                    i < n,
                    i < j <= n,
                    comp@.len() == n,
                    assigned@.len() == n,
                    mat(marked@).len() == n + 1,
                    forall|w: int|
                        0 <= w < mat(marked@).len() ==> (#[trigger] mat(marked@)[w]).len() == n
                            + 1,
                    forall|w: int| 0 <= w <= n ==> !(#[trigger] mat(marked@)[w][w]),
                    b == leaders@.len() - 1,
                    leaders@[b as int] == i,
                    comp@[i as int] == b,
                    assigned@[i as int],
                    forall|w: int| 0 <= w < i ==> #[trigger] assigned@[w],
                    forall|w: int|
                        0 <= w < n && #[trigger] assigned@[w] ==> comp@[w] < leaders@.len(),
                    forall|bb: int|
                        0 <= bb < leaders@.len() ==> (#[trigger] leaders@[bb]) < n
                            && comp@[leaders@[bb] as int] == bb && assigned@[leaders@[bb] as int],
                    forall|w: int|
                        0 <= w < n && #[trigger] assigned@[w] ==> !mat(marked@)[leaders@[comp@[w] as int] as int][w]
                            && leaders@[comp@[w] as int] <= w,
                    forall|bb: int| 0 <= bb < leaders@.len() ==> (#[trigger] leaders@[bb]) <= i,
                    forall|b1: int, b2: int|
                        0 <= b1 < b2 < leaders@.len() ==> leaders@[b1] < leaders@[b2],
                    forall|w: int, bb: int|
                        #![trigger comp@[w], leaders@[bb]]
                        0 <= w < n && assigned@[w] && 0 <= bb < comp@[w] ==> mat(
                            marked@,
                        )[leaders@[bb] as int][w],
                    forall|w: int, bb: int|
                        #![trigger assigned@[w], leaders@[bb]]
                        0 <= w < n && !assigned@[w] && 0 <= bb < b ==> mat(
                            marked@,
                        )[leaders@[bb] as int][w],
                    forall|w: int|
                        i < w < j && !(#[trigger] assigned@[w]) ==> mat(marked@)[i as int][w],
                    i > 0 ==> (assigned@[0] && comp@[0] == 0 && leaders@.len() > 0
                        && leaders@[0] == 0),
                    i == 0 ==> (assigned@[0] && comp@[0] == 0 && leaders@[0] == 0),
                decreases n - j,
            {
                if !assigned[j] && !marked[i][j] {
                    proof {
                        assert(marked@[i as int]@ == mat(marked@)[i as int]);
                    }
                    comp.set(j, b);
                    assigned.set(j, true);
                }
                j += 1;
            }
        }
        i += 1;
    }
    proof {
        assert forall|w: int| 0 <= w < n implies (#[trigger] comp@[w]) < leaders@.len() && !mat(
            marked@,
        )[leaders@[comp@[w] as int] as int][w] && leaders@[comp@[w] as int] <= w by {
            assert(assigned@[w]);
        }
        assert forall|w: int, bb: int|
            #![trigger comp@[w], leaders@[bb]]
            0 <= w < n && 0 <= bb < comp@[w] implies mat(marked@)[leaders@[bb] as int][w] by {
            assert(assigned@[w]);
        }
    }
    (comp, leaders)
}

/// Whether the block `b` appears in the kept-block list.
pub open spec fn has_block(bmap: Seq<usize>, b: int) -> bool {
    exists|k: int| 0 <= k < bmap.len() && (#[trigger] bmap[k]) as int == b
}

/// Builds the quotient automaton over the kept blocks: blocks whose leader is
/// indistinguishable from the implicit sink (dead blocks) are left out, and
/// transitions into them are left out too. A block's members are listed in
/// increasing order; its transitions are its leader's, re-mapped through
/// block membership; it is accepting exactly when its leader is. Also
/// returns which block each emitted state came from.
pub fn build_dfa(
    a: &Dfa,
    comp: &Vec<usize>,
    leaders: &Vec<usize>,
    marked: &Vec<Vec<bool>>,
) -> (r: (Dfa, Vec<usize>))
    requires
        a.wf(),
        a.states@.len() < usize::MAX,
        comp@.len() == a.states@.len(),
        mat(marked@).len() == a.states@.len() + 1,
        forall|i: int|
            0 <= i < mat(marked@).len() ==> (#[trigger] mat(marked@)[i]).len() == a.states@.len()
                + 1,
        forall|i: int| 0 <= i < comp@.len() ==> (#[trigger] comp@[i]) < leaders@.len(),
        forall|b: int|
            0 <= b < leaders@.len() ==> (#[trigger] leaders@[b]) < a.states@.len()
                && comp@[leaders@[b] as int] == b,
    ensures
        r.0.wf(),
        r.0.alphabet@ == a.alphabet@,
        r.0.states@.len() == r.1@.len(),
        forall|k1: int, k2: int| 0 <= k1 < k2 < r.1@.len() ==> r.1@[k1] < r.1@[k2],
        forall|k: int|
            0 <= k < r.1@.len() ==> (#[trigger] r.1@[k]) < leaders@.len() && mat(
                marked@,
            )[leaders@[r.1@[k] as int] as int][a.states@.len() as int],
        forall|b: int|
            0 <= b < leaders@.len() && mat(marked@)[leaders@[b] as int][a.states@.len() as int]
                ==> has_block(r.1@, b),
        forall|k: int|
            0 <= k < r.0.states@.len() ==> strictly_sorted(#[trigger] r.0.states@[k]@),
        forall|k: int|
            0 <= k < r.0.states@.len() ==> pos_set(#[trigger] r.0.states@[k]@) == Set::new(
                |u: int| 0 <= u < a.states@.len() && comp@[u] as int == r.1@[k] as int,
            ),
        forall|k: int|
            0 <= k < r.0.states@.len() ==> #[trigger] r.0.is_terminal@[k] == spec_acc(
                *a,
                leaders@[r.1@[k] as int] as int,
            ),
        forall|k: int, c: int|
            0 <= k < r.0.states@.len() && 0 <= c < a.alphabet@.len() ==> #[trigger] quotient_entry_ok(
                *a,
                comp@,
                leaders@,
                mat(marked@),
                r.0,
                r.1@,
                k,
                c,
            ),
{
    let n = a.states.len();
    let nblocks = leaders.len();

    // which blocks stay: those whose leader the table distinguishes from the
    // implicit sink
    let mut keep: Vec<bool> = Vec::new();
    let mut b: usize = 0;
    while b < nblocks
        invariant
            a.wf(),
            n == a.states@.len(),
            nblocks == leaders@.len(),
            mat(marked@).len() == n + 1,
            forall|i: int|
                0 <= i < mat(marked@).len() ==> (#[trigger] mat(marked@)[i]).len() == n + 1,
            forall|bb: int|
                0 <= bb < leaders@.len() ==> (#[trigger] leaders@[bb]) < n,
            b <= nblocks,
            keep@.len() == b,
            forall|bb: int|
                0 <= bb < b ==> #[trigger] keep@[bb] == mat(marked@)[leaders@[bb] as int][n as int],
        decreases nblocks - b,
    {
        proof {
            assert(marked@[leaders@[b as int] as int]@ == mat(marked@)[leaders@[b as int] as int]);
        }
        keep.push(marked[leaders[b]][n]);
        b += 1;
    }

    // the new index of every kept block
    let mut newb: Vec<usize> = Vec::new();
    let mut bmap: Vec<usize> = Vec::new();
    let mut b: usize = 0;
    while b < nblocks
        invariant
            nblocks == leaders@.len(),
            keep@.len() == nblocks,
            b <= nblocks,
            newb@.len() == b,
            bmap@.len() <= b,
            forall|k1: int, k2: int| 0 <= k1 < k2 < bmap@.len() ==> bmap@[k1] < bmap@[k2],
            forall|k: int| 0 <= k < bmap@.len() ==> (#[trigger] bmap@[k]) < b && keep@[bmap@[k] as int],
            forall|bb: int|
                0 <= bb < b && #[trigger] keep@[bb] ==> newb@[bb] < bmap@.len()
                    && bmap@[newb@[bb] as int] == bb,
        decreases nblocks - b,
    {
        if keep[b] {
            newb.push(bmap.len());
            bmap.push(b);
        } else {
            newb.push(0);
        }
        b += 1;
    }

    let mut d = Dfa { alphabet: a.alphabet.clone(), states: Vec::new(), trans: Vec::new(), is_terminal: Vec::new() };
    proof {
        assert(d.alphabet@ == a.alphabet@);
    }

    let mut k: usize = 0;
    while k < bmap.len()
        invariant
            a.wf(),
            n == a.states@.len(),
            n < usize::MAX,
            nblocks == leaders@.len(),
            comp@.len() == n,
            keep@.len() == nblocks,
            newb@.len() == nblocks,
            mat(marked@).len() == n + 1,
            forall|i: int|
                0 <= i < mat(marked@).len() ==> (#[trigger] mat(marked@)[i]).len() == n + 1,
            forall|i: int| 0 <= i < comp@.len() ==> (#[trigger] comp@[i]) < leaders@.len(),
            forall|bb: int|
                0 <= bb < leaders@.len() ==> (#[trigger] leaders@[bb]) < n
                    && comp@[leaders@[bb] as int] == bb,
            forall|k1: int, k2: int| 0 <= k1 < k2 < bmap@.len() ==> bmap@[k1] < bmap@[k2],
            forall|kk: int|
                0 <= kk < bmap@.len() ==> (#[trigger] bmap@[kk]) < nblocks && keep@[bmap@[kk] as int],
            forall|bb: int|
                0 <= bb < nblocks && #[trigger] keep@[bb] ==> newb@[bb] < bmap@.len()
                    && bmap@[newb@[bb] as int] == bb,
            forall|bb: int|
                0 <= bb < nblocks ==> #[trigger] keep@[bb] == mat(marked@)[leaders@[bb] as int][n as int],
            k <= bmap@.len(),
            d.alphabet@ == a.alphabet@,
            d.states@.len() == k,
            d.trans@.len() == k,
            d.is_terminal@.len() == k,
            forall|kk: int|
                0 <= kk < k ==> strictly_sorted(#[trigger] d.states@[kk]@),
            forall|kk: int|
                0 <= kk < k ==> pos_set(#[trigger] d.states@[kk]@) == Set::new(
                    |u: int| 0 <= u < n && comp@[u] as int == bmap@[kk] as int,
                ),
            forall|kk: int|
                0 <= kk < k ==> #[trigger] d.is_terminal@[kk] == spec_acc(
                    *a,
                    leaders@[bmap@[kk] as int] as int,
                ),
            forall|kk: int|
                0 <= kk < k ==> (#[trigger] d.trans@[kk]@).len() == a.alphabet@.len(),
            forall|kk: int, c: int|
                0 <= kk < k && 0 <= c < a.alphabet@.len() ==> match (#[trigger] d.trans@[kk]@[c]) {
                    Some(k2) => k2 < bmap@.len(),
                    None => true,
                },
            forall|kk: int, c: int|
                0 <= kk < k && 0 <= c < a.alphabet@.len() ==> #[trigger] quotient_trans_ok(
                    *a,
                    comp@,
                    leaders@,
                    mat(marked@),
                    bmap@,
                    d.trans@[kk]@[c],
                    bmap@[kk] as int,
                    c,
                ),
        decreases bmap@.len() - k,
    {
        let b = bmap[k];
        let leader = leaders[b];

        // members of the block, in increasing order
        let mut members: Vec<usize> = Vec::new();
        let mut u: usize = 0;
        while u < n
            invariant
                u <= n,
                comp@.len() == n,
                b < nblocks,
                members@.len() <= u,
                strictly_sorted(members@),
                forall|z: int| 0 <= z < members@.len() ==> (#[trigger] members@[z]) < u,
                pos_set(members@) =~= Set::new(
                    |w: int| 0 <= w < u && comp@[w] as int == b as int,
                ),
            decreases n - u,
        {
            let ghost before = members@;
            if comp[u] == b {
                members.push(u);
                proof {
                    crate::fsm::utils::lemma_pos_set_push(before, u);
                }
            }
            proof {
                assert(pos_set(members@) =~= Set::new(
                    |w: int| 0 <= w < u + 1 && comp@[w] as int == b as int,
                ));
            }
            u += 1;
        }

        // the leader's transitions, re-mapped through block membership
        let mut row: Vec<Option<usize>> = Vec::new();
        let mut c: usize = 0;
        while c < a.alphabet.len()
            invariant
                a.wf(),
                n == a.states@.len(),
                nblocks == leaders@.len(),
                comp@.len() == n,
                keep@.len() == nblocks,
                newb@.len() == nblocks,
                mat(marked@).len() == n + 1,
                forall|i: int| 0 <= i < comp@.len() ==> (#[trigger] comp@[i]) < leaders@.len(),
                forall|bb: int|
                    0 <= bb < leaders@.len() ==> (#[trigger] leaders@[bb]) < n,
                forall|kk: int|
                    0 <= kk < bmap@.len() ==> (#[trigger] bmap@[kk]) < nblocks
                        && keep@[bmap@[kk] as int],
                forall|bb: int|
                    0 <= bb < nblocks && #[trigger] keep@[bb] ==> newb@[bb] < bmap@.len()
                        && bmap@[newb@[bb] as int] == bb,
                forall|bb: int|
                    0 <= bb < nblocks ==> #[trigger] keep@[bb] == mat(marked@)[leaders@[bb] as int][n as int],
                b < nblocks,
                leader == leaders@[b as int],
                leader < n,
                c <= a.alphabet@.len(),
                row@.len() == c,
                forall|cc: int|
                    0 <= cc < c ==> match (#[trigger] row@[cc]) {
                        Some(k2) => k2 < bmap@.len(),
                        None => true,
                    },
                forall|cc: int|
                    0 <= cc < c ==> #[trigger] quotient_trans_ok(
                        *a,
                        comp@,
                        leaders@,
                        mat(marked@),
                        bmap@,
                        row@[cc],
                        b as int,
                        cc,
                    ),
            decreases a.alphabet@.len() - c,
        {
            let entry: Option<usize> = match a.trans[leader][c] {
                Some(tg) => {
                    let tb = comp[tg];
                    if keep[tb] {
                        Some(newb[tb])
                    } else {
                        None
                    }
                },
                None => None,
            };
            row.push(entry);
            proof {
                assert(row@[c as int] == entry);
                match a.trans@[leader as int]@[c as int] {
                    Some(tg) => {
                        assert(tg < n);
                        let tb = comp@[tg as int] as int;
                        assert(0 <= tb < nblocks);
                        assert(keep@[tb] == mat(marked@)[leaders@[tb] as int][n as int]);
                        if keep@[tb] {
                            assert(entry == Some(newb@[tb]));
                            assert(newb@[tb] < bmap@.len());
                            assert(bmap@[newb@[tb] as int] as int == tb);
                        } else {
                            assert(entry is None);
                        }
                    },
                    None => {
                        assert(entry is None);
                    },
                }
                assert(quotient_trans_ok(
                    *a,
                    comp@,
                    leaders@,
                    mat(marked@),
                    bmap@,
                    row@[c as int],
                    b as int,
                    c as int,
                ));
            }
            c += 1;
        }

        proof {
            assert(marked@[leader as int]@ == mat(marked@)[leader as int]);
        }
        let acc = a.is_terminal[leader];
        d.states.push(members);
        d.trans.push(row);
        d.is_terminal.push(acc);
        k += 1;
    }
    proof {
        assert forall|b: int|
            0 <= b < leaders@.len() && mat(marked@)[leaders@[b] as int][n as int] implies has_block(
            bmap@,
            b,
        ) by {
            assert(keep@[b]);
            assert(bmap@[newb@[b] as int] as int == b);
        }
    }
    (d, bmap)
}

/// The start state is reachable.
pub proof fn lemma_reach_start(d: Dfa)
    requires
        d.states@.len() > 0,
    ensures
        d.spec_reachable(0),
{
    let p: Seq<int> = seq![0];
    assert(d.is_path(p));
    assert(p.last() == 0);
}

/// Reachability extends along edges.
pub proof fn lemma_reach_step(d: Dfa, u: int, v: int)
    requires
        d.spec_reachable(u),
        0 <= v < d.states@.len(),
        d.edge(u, v),
    ensures
        d.spec_reachable(v),
{
    let p = choose|p: Seq<int>| d.is_path(p) && p.last() == u;
    let p2 = p.push(v);
    assert(p2.last() == v);
    assert forall|k: int| 0 < k < p2.len() implies d.edge(p2[k - 1], #[trigger] p2[k]) by {
        if k < p.len() {
            assert(p2[k] == p[k] && p2[k - 1] == p[k - 1]);
        } else {
            assert(p2[k - 1] == p.last());
        }
    }
    assert(d.is_path(p2));
}

/// State `u` still waits on the stack.
pub open spec fn in_stack(st: Seq<usize>, u: int) -> bool {
    exists|k: int| 0 <= k < st.len() && (#[trigger] st[k]) as int == u
}

/// Every successor of `u` carries the flag.
pub open spec fn succs_marked(d: Dfa, mk: Seq<bool>, u: int) -> bool {
    forall|c: int|
        0 <= c < d.alphabet@.len() ==> match (#[trigger] d.trans@[u]@[c]) {
            Some(v) => mk[v as int],
            None => true,
        }
}

/// Flags exactly a set of states reachable from the start state, by
/// depth-first search: every flagged state is truly reachable, the start
/// state is flagged, and the flagged set is closed under transitions.
pub fn find_reachable(d: &Dfa) -> (r: Vec<bool>)
    requires
        d.wf(),
    ensures
        r@.len() == d.states@.len(),
        d.states@.len() > 0 ==> r@[0],
        forall|u: int| 0 <= u < r@.len() && r@[u] ==> #[trigger] d.spec_reachable(u),
        forall|u: int| 0 <= u < r@.len() && r@[u] ==> #[trigger] succs_marked(*d, r@, u),
{
    let n = d.states.len();
    let mut marked: Vec<bool> = Vec::new();
    let mut k: usize = 0;
    while k < n
        invariant
            k <= n,
            marked@.len() == k,
            forall|w: int| 0 <= w < k ==> !(#[trigger] marked@[w]),
        decreases n - k,
    {
        marked.push(false);
        k += 1;
    }
    if n == 0 {
        return marked;
    }
    let mut stack: Vec<usize> = Vec::new();
    marked.set(0, true);
    stack.push(0);
    proof {
        lemma_reach_start(*d);
        assert forall|u: int| 0 <= u < n && marked@[u] implies #[trigger] d.spec_reachable(
            u,
        ) by {
            assert(u == 0);
        }
        assert forall|u: int|
            0 <= u < n && marked@[u] && !in_stack(stack@, u) implies #[trigger] succs_marked(
            *d,
            marked@,
            u,
        ) by {
            assert(u == 0);
            assert(stack@[0] as int == 0);
            assert(in_stack(stack@, u));
        }
    }
    while stack.len() > 0
        invariant
            d.wf(),
            n == d.states@.len(),
            n > 0,
            marked@.len() == n,
            marked@[0],
            forall|k: int| 0 <= k < stack@.len() ==> (#[trigger] stack@[k]) < n && marked@[stack@[k] as int],
            forall|u: int| 0 <= u < n && marked@[u] ==> #[trigger] d.spec_reachable(u),
            forall|u: int|
                0 <= u < n && marked@[u] && !in_stack(stack@, u) ==> #[trigger] succs_marked(
                    *d,
                    marked@,
                    u,
                ),
        decreases 2 * cf_row(marked@) + stack@.len(),
    {
        let ghost stack0 = stack@;
        let u = match stack.pop() {
            Some(u) => u,
            None => 0,
        };
        proof {
            assert(stack0[stack0.len() - 1] == u);
            assert(u < n && marked@[u as int]);
            assert(stack@ =~= stack0.drop_last());
            assert forall|w: int|
                0 <= w < n && marked@[w] && !in_stack(stack@, w) && w != u implies
                #[trigger] succs_marked(*d, marked@, w) by {
                assert(!in_stack(stack0, w)) by {
                    if in_stack(stack0, w) {
                        let k = choose|k: int|
                            0 <= k < stack0.len() && (#[trigger] stack0[k]) as int == w;
                        if k < stack0.len() - 1 {
                            assert(stack@[k] as int == w);
                            assert(in_stack(stack@, w));
                        }
                    }
                }
            }
        }
        let ghost cf0 = cf_row(marked@);
        let ghost sl0 = stack@.len();
        let mut c: usize = 0;
        while c < d.alphabet.len()
            invariant
                d.wf(),
                n == d.states@.len(),
                n > 0,
                u < n,
                c <= d.alphabet@.len(),
                marked@.len() == n,
                marked@[0],
                marked@[u as int],
                forall|k: int|
                    0 <= k < stack@.len() ==> (#[trigger] stack@[k]) < n && marked@[stack@[k] as int],
                forall|w: int| 0 <= w < n && marked@[w] ==> #[trigger] d.spec_reachable(w),
                forall|w: int|
                    0 <= w < n && marked@[w] && !in_stack(stack@, w) && w != u
                        ==> #[trigger] succs_marked(*d, marked@, w),
                forall|cc: int|
                    0 <= cc < c ==> match (#[trigger] d.trans@[u as int]@[cc]) {
                        Some(v) => marked@[v as int],
                        None => true,
                    },
                2 * cf_row(marked@) + stack@.len() <= 2 * cf0 + sl0,
            decreases d.alphabet@.len() - c,
        {
            match d.trans[u][c] {
                Some(v) => {
                    if !marked[v] {
                        let ghost m0 = marked@;
                        proof {
                            lemma_cf_row_update(m0, v as int);
                        }
                        let ghost st0 = stack@;
                        marked.set(v, true);
                        stack.push(v);
                        proof {
                            assert(d.edge(u as int, v as int)) by {
                                assert(d.trans@[u as int]@[c as int] == Some(v));
                            }
                            lemma_reach_step(*d, u as int, v as int);
                            assert forall|w: int|
                                0 <= w < n && marked@[w] && !in_stack(stack@, w) && w != u implies
                                #[trigger] succs_marked(*d, marked@, w) by {
                                assert(w != v as int) by {
                                    if w == v as int {
                                        assert(stack@[stack@.len() - 1] as int == w);
                                        assert(in_stack(stack@, w));
                                    }
                                }
                                assert(!in_stack(st0, w)) by {
                                    if in_stack(st0, w) {
                                        let k = choose|k: int|
                                            0 <= k < st0.len() && (#[trigger] st0[k]) as int == w;
                                        assert(stack@[k] as int == w);
                                        assert(in_stack(stack@, w));
                                    }
                                }
                                assert(m0[w]);
                                assert(succs_marked(*d, m0, w));
                                assert forall|cc: int|
                                    0 <= cc < d.alphabet@.len() implies match (
                                #[trigger] d.trans@[w]@[cc]) {
                                    Some(vv) => marked@[vv as int],
                                    None => true,
                                } by {
                                    match d.trans@[w]@[cc] {
                                        Some(vv) => {
                                            assert(m0[vv as int]);
                                        },
                                        None => {},
                                    }
                                }
                            }
                        }
                    }
                },
                None => {},
            }
            c += 1;
        }
        proof {
            assert(succs_marked(*d, marked@, u as int));
            assert forall|w: int|
                0 <= w < n && marked@[w] && !in_stack(stack@, w) implies #[trigger] succs_marked(
                *d,
                marked@,
                w,
            ) by {}
        }
    }
    proof {
        assert forall|u: int|
            0 <= u < n && marked@[u] implies #[trigger] succs_marked(*d, marked@, u) by {
            assert(!in_stack(stack@, u));
        }
    }
    marked
}

/// The quotient transition of block `b` on symbol `c` is its leader's,
/// re-mapped through block membership: a present entry names the kept block
/// of the leader's target, and an absent one means the leader's transition is
/// absent or leads into a dropped (dead) block.
pub open spec fn quotient_trans_ok(
    a: Dfa,
    comp: Seq<usize>,
    leaders: Seq<usize>,
    mm: Seq<Seq<bool>>,
    bmap: Seq<usize>,
    entry: Option<usize>,
    b: int,
    c: int,
) -> bool {
    let leader = leaders[b] as int;
    match a.trans@[leader]@[c] {
        Some(tg) => {
            let tb = comp[tg as int] as int;
            if mm[leaders[tb] as int][a.states@.len() as int] {
                entry matches Some(k2) && 0 <= k2 < bmap.len() && bmap[k2 as int] as int == tb
            } else {
                entry is None
            }
        },
        None => entry is None,
    }
}

/// A quotient entry is right, stated over the emitted automaton.
pub open spec fn quotient_entry_ok(
    a: Dfa,
    comp: Seq<usize>,
    leaders: Seq<usize>,
    mm: Seq<Seq<bool>>,
    d: Dfa,
    bmap: Seq<usize>,
    k: int,
    c: int,
) -> bool {
    quotient_trans_ok(a, comp, leaders, mm, bmap, d.trans@[k]@[c], bmap[k] as int, c)
}

/// The state the total successor function reaches from `u` on a word of
/// symbol indices.
pub open spec fn run_total(a: Dfa, u: int, w: Seq<int>) -> int
    decreases w.len(),
{
    if w.len() == 0 {
        u
    } else {
        run_total(a, succ_total(a, u, w[0]), w.drop_first())
    }
}

/// Running one more symbol is one more total-successor step.
pub proof fn lemma_run_snoc(a: Dfa, u: int, w: Seq<int>, c: int)
    ensures
        run_total(a, u, w.push(c)) == succ_total(a, run_total(a, u, w), c),
    decreases w.len(),
{
    if w.len() == 0 {
        assert(w.push(c)[0] == c);
        assert(w.push(c).drop_first() =~= Seq::<int>::empty());
        assert(run_total(a, succ_total(a, u, c), Seq::<int>::empty()) == succ_total(a, u, c));
        assert(run_total(a, u, w) == u);
    } else {
        assert(w.push(c)[0] == w[0]);
        assert(w.push(c).drop_first() =~= w.drop_first().push(c));
        lemma_run_snoc(a, succ_total(a, u, w[0]), w.drop_first(), c);
        assert(run_total(a, u, w.push(c)) == run_total(
            a,
            succ_total(a, u, w[0]),
            w.drop_first().push(c),
        ));
        assert(run_total(a, u, w) == run_total(a, succ_total(a, u, w[0]), w.drop_first()));
    }
}

/// The implicit sink absorbs every word.
pub proof fn lemma_sink_runs(a: Dfa, w: Seq<int>)
    ensures
        run_total(a, a.states@.len() as int, w) == a.states@.len(),
    decreases w.len(),
{
    if w.len() > 0 {
        lemma_sink_runs(a, w.drop_first());
    }
}

/// States distinguished by some word are marked: if running a word from `i`
/// and from `j` ends with exactly one side accepting, table filling (marking
/// acceptance-splitting pairs, closed backwards under the total successor)
/// has marked the pair.
pub proof fn lemma_distinguished_marked(a: Dfa, mm: Seq<Seq<bool>>, i: int, j: int, w: Seq<int>)
    requires
        a.wf(),
        0 <= i <= a.states@.len(),
        0 <= j <= a.states@.len(),
        forall|k: int| 0 <= k < w.len() ==> 0 <= #[trigger] w[k] < a.alphabet@.len(),
        spec_acc(a, run_total(a, i, w)) != spec_acc(a, run_total(a, j, w)),
        forall|x: int, y: int|
            0 <= x <= a.states@.len() && 0 <= y <= a.states@.len() && spec_acc(a, x) != spec_acc(
                a,
                y,
            ) ==> #[trigger] mm[x][y],
        forall|x: int, y: int, c: int|
            #![trigger mm[x][y], succ_total(a, x, c)]
            0 <= x <= a.states@.len() && 0 <= y <= a.states@.len() && 0 <= c < a.alphabet@.len()
                && !mm[x][y] ==> !mm[succ_total(a, x, c)][succ_total(a, y, c)],
    ensures
        mm[i][j],
    decreases w.len(),
{
    if w.len() == 0 {
        assert(spec_acc(a, i) != spec_acc(a, j));
    } else {
        let c = w[0];
        let i2 = succ_total(a, i, c);
        let j2 = succ_total(a, j, c);
        assert(0 <= i2 <= a.states@.len() && 0 <= j2 <= a.states@.len());
        lemma_distinguished_marked(a, mm, i2, j2, w.drop_first());
        assert(mm[i2][j2]);
        if !mm[i][j] {
            assert(!mm[succ_total(a, i, c)][succ_total(a, j, c)]);
        }
    }
}

/// Every reachable state is reached by running some word of symbol indices
/// from the start state.
pub proof fn lemma_path_gives_word(a: Dfa, p: Seq<int>)
    requires
        a.wf(),
        a.states@.len() <= usize::MAX,
        a.is_path(p),
    ensures
        exists|w: Seq<int>|
            (forall|k: int| 0 <= k < w.len() ==> 0 <= #[trigger] w[k] < a.alphabet@.len())
                && #[trigger] run_total(a, 0, w) == p.last(),
    decreases p.len(),
{
    if p.len() == 1 {
        let w = Seq::<int>::empty();
        assert(run_total(a, 0, w) == 0 == p.last());
        assert((forall|k: int| 0 <= k < w.len() ==> 0 <= #[trigger] w[k] < a.alphabet@.len())
            && run_total(a, 0, w) == p.last());
    } else {
        let pre = p.drop_last();
        assert(a.is_path(pre)) by {
            assert(pre.len() > 0 && pre[0] == p[0]);
            assert forall|k: int| 0 <= k < pre.len() implies 0 <= #[trigger] pre[k]
                < a.states@.len() by {
                assert(pre[k] == p[k]);
            }
            assert forall|k: int| 0 < k < pre.len() implies a.edge(pre[k - 1], #[trigger] pre[k]) by {
                assert(pre[k] == p[k] && pre[k - 1] == p[k - 1]);
            }
        }
        lemma_path_gives_word(a, pre);
        let w0 = choose|w: Seq<int>|
            (forall|k: int| 0 <= k < w.len() ==> 0 <= #[trigger] w[k] < a.alphabet@.len())
                && #[trigger] run_total(a, 0, w) == pre.last();
        let u = pre.last();
        let v = p.last();
        assert(0 <= u < a.states@.len()) by {
            assert(pre[pre.len() - 1] == u);
        }
        assert(0 <= v < a.states@.len()) by {
            assert(p[p.len() - 1] == v);
        }
        assert(a.edge(u, v)) by {
            assert(p[p.len() - 2] == u && p[p.len() - 1] == v);
        }
        let c = choose|c: int|
            0 <= c < a.alphabet@.len() && #[trigger] a.trans@[u]@[c] == Some(v as usize);
        let w = w0.push(c);
        lemma_run_snoc(a, 0, w0, c);
        assert(a.trans@[u]@[c] == Some(v as usize));
        assert(succ_total(a, u, c) == (v as usize) as int);
        assert(succ_total(a, u, c) == v);
        assert(run_total(a, 0, w) == v);
        assert(forall|k: int| 0 <= k < w.len() ==> 0 <= #[trigger] w[k] < a.alphabet@.len());
    }
}

/// When some reachable state accepts, the start state is distinguished from
/// the implicit sink by any filled table (acceptance-splitting pairs marked,
/// marking closed backwards under the total successor).
pub proof fn lemma_live_start_marked(a: Dfa, mm: Seq<Seq<bool>>)
    requires
        a.wf(),
        a.states@.len() <= usize::MAX,
        exists|u: int|
            0 <= u < a.states@.len() && #[trigger] a.spec_reachable(u) && a.is_terminal@[u],
        forall|x: int, y: int|
            0 <= x <= a.states@.len() && 0 <= y <= a.states@.len() && spec_acc(a, x) != spec_acc(
                a,
                y,
            ) ==> #[trigger] mm[x][y],
        forall|x: int, y: int, c: int|
            #![trigger mm[x][y], succ_total(a, x, c)]
            0 <= x <= a.states@.len() && 0 <= y <= a.states@.len() && 0 <= c < a.alphabet@.len()
                && !mm[x][y] ==> !mm[succ_total(a, x, c)][succ_total(a, y, c)],
    ensures
        mm[0][a.states@.len() as int],
{
    let n = a.states@.len() as int;
    let u = choose|u: int|
        0 <= u < a.states@.len() && #[trigger] a.spec_reachable(u) && a.is_terminal@[u];
    let p = choose|p: Seq<int>| a.is_path(p) && p.last() == u;
    lemma_path_gives_word(a, p);
    let w = choose|w: Seq<int>|
        (forall|k: int| 0 <= k < w.len() ==> 0 <= #[trigger] w[k] < a.alphabet@.len())
            && #[trigger] run_total(a, 0, w) == u;
    lemma_sink_runs(a, w);
    assert(spec_acc(a, run_total(a, 0, w)));
    assert(!spec_acc(a, run_total(a, n, w)));
    lemma_distinguished_marked(a, mm, 0, n, w);
}


/// Whether some word leads the state to acceptance: the state contributes to
/// the language.
pub open spec fn spec_live(a: Dfa, u: int) -> bool {
    exists|w: Seq<int>| #[trigger] word_ok(a, w) && spec_acc(a, run_total(a, u, w))
}

/// What table filling establishes of its matrix, bundled: the shape, the
/// symmetry, the acceptance-splitting base, the backwards closure, and the
/// soundness of every mark.
pub open spec fn table_facts(a: Dfa, mm: Seq<Seq<bool>>) -> bool {
    &&& forall|x: int, y: int|
        0 <= x <= a.states@.len() && 0 <= y <= a.states@.len() ==> #[trigger] mm[x][y] == mm[y][x]
    &&& forall|x: int, y: int|
        0 <= x <= a.states@.len() && 0 <= y <= a.states@.len() && spec_acc(a, x) != spec_acc(
            a,
            y,
        ) ==> #[trigger] mm[x][y]
    &&& forall|x: int, y: int, c: int|
        #![trigger mm[x][y], succ_total(a, x, c)]
        0 <= x <= a.states@.len() && 0 <= y <= a.states@.len() && 0 <= c < a.alphabet@.len()
            && !mm[x][y] ==> !mm[succ_total(a, x, c)][succ_total(a, y, c)]
    &&& forall|x: int, y: int|
        0 <= x <= a.states@.len() && 0 <= y <= a.states@.len() && mm[x][y]
            ==> #[trigger] distinguishable(a, x, y)
}

/// Unmarked states agree on every word: running any word leaves both
/// accepting or both not.
pub proof fn lemma_unmarked_agree(a: Dfa, mm: Seq<Seq<bool>>, x: int, y: int)
    requires
        a.wf(),
        table_facts(a, mm),
        0 <= x <= a.states@.len(),
        0 <= y <= a.states@.len(),
        !mm[x][y],
    ensures
        forall|w: Seq<int>|
            #[trigger] word_ok(a, w) ==> spec_acc(a, run_total(a, x, w)) == spec_acc(
                a,
                run_total(a, y, w),
            ),
{
    assert forall|w: Seq<int>|
        #[trigger] word_ok(a, w) implies spec_acc(a, run_total(a, x, w)) == spec_acc(
        a,
        run_total(a, y, w),
    ) by {
        if spec_acc(a, run_total(a, x, w)) != spec_acc(a, run_total(a, y, w)) {
            lemma_distinguished_marked(a, mm, x, y, w);
        }
    }
}

/// A state unmarked against a live state is live itself.
pub proof fn lemma_live_transport(a: Dfa, mm: Seq<Seq<bool>>, x: int, y: int)
    requires
        a.wf(),
        table_facts(a, mm),
        0 <= x <= a.states@.len(),
        0 <= y <= a.states@.len(),
        !mm[x][y],
        spec_live(a, y),
    ensures
        spec_live(a, x),
{
    lemma_unmarked_agree(a, mm, x, y);
    let w = choose|w: Seq<int>| #[trigger] word_ok(a, w) && spec_acc(a, run_total(a, y, w));
    assert(word_ok(a, w) && spec_acc(a, run_total(a, x, w)));
}

/// A live state is marked against the implicit sink.
pub proof fn lemma_live_marked_sink(a: Dfa, mm: Seq<Seq<bool>>, u: int)
    requires
        a.wf(),
        table_facts(a, mm),
        0 <= u < a.states@.len(),
        spec_live(a, u),
    ensures
        mm[u][a.states@.len() as int],
        mm[a.states@.len() as int][u],
{
    let n = a.states@.len() as int;
    let w = choose|w: Seq<int>| #[trigger] word_ok(a, w) && spec_acc(a, run_total(a, u, w));
    lemma_sink_runs(a, w);
    assert(!spec_acc(a, run_total(a, n, w)));
    lemma_distinguished_marked(a, mm, u, n, w);
    lemma_distinguished_marked(a, mm, n, u, w);
}

/// What the grouping establishes, bundled: every state belongs to the block
/// of the least leader it is unmarked against.
pub open spec fn partition_facts(
    a: Dfa,
    mm: Seq<Seq<bool>>,
    comp: Seq<usize>,
    leaders: Seq<usize>,
) -> bool {
    &&& comp.len() == a.states@.len()
    &&& forall|i: int| 0 <= i < comp.len() ==> (#[trigger] comp[i]) < leaders.len()
    &&& forall|b: int|
        0 <= b < leaders.len() ==> (#[trigger] leaders[b]) < a.states@.len() && comp[leaders[b] as int]
            == b
    &&& forall|i: int|
        0 <= i < comp.len() ==> !mm[#[trigger] leaders[comp[i] as int] as int][i]
    &&& forall|i: int, b: int|
        #![trigger comp[i], leaders[b]]
        0 <= i < comp.len() && 0 <= b < comp[i] ==> mm[leaders[b] as int][i]
}

/// Two states agreeing on every word share a block: the same leaders mark
/// them, so the least unmarked leader is the same.
pub proof fn lemma_agreeing_same_block(
    a: Dfa,
    mm: Seq<Seq<bool>>,
    comp: Seq<usize>,
    leaders: Seq<usize>,
    x: int,
    y: int,
)
    requires
        a.wf(),
        table_facts(a, mm),
        partition_facts(a, mm, comp, leaders),
        0 <= x < a.states@.len(),
        0 <= y < a.states@.len(),
        forall|w: Seq<int>|
            #[trigger] word_ok(a, w) ==> spec_acc(a, run_total(a, x, w)) == spec_acc(
                a,
                run_total(a, y, w),
            ),
    ensures
        comp[x] == comp[y],
{
    // every leader marks x exactly when it marks y
    assert forall|b: int| 0 <= b < leaders.len() implies mm[(#[trigger] leaders[b]) as int][x]
        == mm[leaders[b] as int][y] by {
        let l = leaders[b] as int;
        if mm[l][x] && !mm[l][y] {
            assert(distinguishable(a, l, x));
            let w = choose|w: Seq<int>|
                #[trigger] word_ok(a, w) && spec_acc(a, run_total(a, l, w)) != spec_acc(
                    a,
                    run_total(a, x, w),
                );
            assert(spec_acc(a, run_total(a, l, w)) != spec_acc(a, run_total(a, y, w))) by {
                lemma_unmarked_agree(a, mm, l, y);
            }
            lemma_distinguished_marked(a, mm, l, y, w);
        }
        if !mm[l][x] && mm[l][y] {
            assert(distinguishable(a, l, y));
            let w = choose|w: Seq<int>|
                #[trigger] word_ok(a, w) && spec_acc(a, run_total(a, l, w)) != spec_acc(
                    a,
                    run_total(a, y, w),
                );
            assert(spec_acc(a, run_total(a, l, w)) != spec_acc(a, run_total(a, x, w))) by {
                lemma_unmarked_agree(a, mm, l, x);
            }
            lemma_distinguished_marked(a, mm, l, x, w);
        }
    }
    let bx = comp[x] as int;
    let by = comp[y] as int;
    if bx < by {
        assert(mm[leaders[bx] as int][y]);
        assert(!mm[leaders[bx] as int][x]);
    }
    if by < bx {
        assert(mm[leaders[by] as int][x]);
        assert(!mm[leaders[by] as int][y]);
    }
}


/// Running a concatenation is running the parts in turn.
pub proof fn lemma_run_append(a: Dfa, x: int, w1: Seq<int>, w2: Seq<int>)
    ensures
        run_total(a, x, w1 + w2) == run_total(a, run_total(a, x, w1), w2),
    decreases w1.len(),
{
    if w1.len() == 0 {
        assert(w1 + w2 =~= w2);
    } else {
        assert(w1 + w2 =~= seq![w1[0]] + (w1.drop_first() + w2));
        lemma_run_cons(a, x, w1[0], w1.drop_first() + w2);
        lemma_run_append(a, succ_total(a, x, w1[0]), w1.drop_first(), w2);
        assert(run_total(a, x, w1) == run_total(a, succ_total(a, x, w1[0]), w1.drop_first()));
    }
}

/// A run over alphabet symbols stays among the real states and the sink.
pub proof fn lemma_run_in_range(a: Dfa, u: int, w: Seq<int>)
    requires
        a.wf(),
        word_ok(a, w),
        0 <= u <= a.states@.len(),
    ensures
        0 <= run_total(a, u, w) <= a.states@.len(),
    decreases w.len(),
{
    if w.len() > 0 {
        assert(word_ok(a, w.drop_first())) by {
            assert forall|k: int| 0 <= k < w.drop_first().len() implies 0 <= #[trigger] w.drop_first()[k] < a.alphabet@.len() by {
                assert(w.drop_first()[k] == w[k + 1]);
            }
        }
        lemma_run_in_range(a, succ_total(a, u, w[0]), w.drop_first());
    }
}

/// A run over alphabet symbols from a reachable state that ends among the
/// real states ends in a reachable state.
pub proof fn lemma_run_reach(a: Dfa, u: int, w: Seq<int>)
    requires
        a.wf(),
        word_ok(a, w),
        0 <= u < a.states@.len(),
        a.spec_reachable(u),
    ensures
        run_total(a, u, w) < a.states@.len() ==> a.spec_reachable(run_total(a, u, w)),
    decreases w.len(),
{
    if w.len() > 0 {
        let u2 = succ_total(a, u, w[0]);
        assert(word_ok(a, w.drop_first())) by {
            assert forall|k: int| 0 <= k < w.drop_first().len() implies 0 <= #[trigger] w.drop_first()[k] < a.alphabet@.len() by {
                assert(w.drop_first()[k] == w[k + 1]);
            }
        }
        if u2 == a.states@.len() {
            lemma_sink_runs(a, w.drop_first());
        } else {
            assert(a.trans@[u]@[w[0]] == Some(u2 as usize));
            assert(a.edge(u, u2)) by {
                assert(0 <= w[0] < a.alphabet@.len() && a.trans@[u]@[w[0]] == Some(u2 as usize));
            }
            lemma_reach_step(a, u, u2);
            lemma_run_reach(a, u2, w.drop_first());
        }
    }
}

/// What the minimizer states about the blocks it emits, bundled for the
/// simulation argument: blocks hold real input states, pairwise disjointly;
/// states sharing a block are indistinguishable and live; a block holds every
/// state indistinguishable from one of its members; every live reachable
/// state lies in a block; the start state lies in block 0; a block accepts as
/// its members do; and the transitions follow the block leaders soundly and
/// completely.
pub open spec fn blocks_ok(a: Dfa, r: Dfa) -> bool {
    &&& r.wf()
    &&& r.alphabet@ == a.alphabet@
    &&& forall|k: int|
        0 <= k < r.states@.len() ==> (#[trigger] r.states@[k]@).len() > 0
    &&& forall|k: int, u: int|
        0 <= k < r.states@.len() && #[trigger] pos_set(r.states@[k]@).contains(u) ==> 0 <= u
            < a.states@.len()
    &&& forall|k1: int, k2: int, u: int|
        0 <= k1 < k2 < r.states@.len() && #[trigger] pos_set(r.states@[k1]@).contains(u) ==> !(
        #[trigger] pos_set(r.states@[k2]@).contains(u))
    &&& forall|k: int, u: int, v: int|
        #![trigger pos_set(r.states@[k]@).contains(u), pos_set(r.states@[k]@).contains(v)]
        0 <= k < r.states@.len() && pos_set(r.states@[k]@).contains(u) && pos_set(
            r.states@[k]@,
        ).contains(v) ==> !distinguishable(a, u, v)
    &&& forall|k1: int, k2: int, u: int, v: int|
        #![trigger pos_set(r.states@[k1]@).contains(u), pos_set(r.states@[k2]@).contains(v)]
        0 <= k1 < r.states@.len() && 0 <= k2 < r.states@.len() && k1 != k2 && pos_set(
            r.states@[k1]@,
        ).contains(u) && pos_set(r.states@[k2]@).contains(v) ==> distinguishable(a, u, v)
    &&& forall|k: int, u: int|
        0 <= k < r.states@.len() && #[trigger] pos_set(r.states@[k]@).contains(u) ==> spec_live(
            a,
            u,
        )
    &&& forall|k: int, u: int, v: int|
        #![trigger pos_set(r.states@[k]@).contains(u), pos_set(r.states@[k]@).contains(v)]
        0 <= k < r.states@.len() && pos_set(r.states@[k]@).contains(u) && 0 <= v
            < a.states@.len() && !distinguishable(a, u, v) ==> pos_set(r.states@[k]@).contains(v)
    &&& forall|u: int|
        0 <= u < a.states@.len() && #[trigger] a.spec_reachable(u) && spec_live(a, u) ==> exists|
            k: int,
        |
            0 <= k < r.states@.len() && pos_set(#[trigger] r.states@[k]@).contains(u)
    &&& forall|k: int, u: int|
        0 <= k < r.states@.len() && #[trigger] pos_set(r.states@[k]@).contains(u)
            ==> r.is_terminal@[k] == a.is_terminal@[u]
    &&& (r.states@.len() > 0 ==> pos_set(r.states@[0]@).contains(0))
    &&& forall|k: int, c: int|
        0 <= k < r.states@.len() && 0 <= c < a.alphabet@.len() ==> #[trigger] min_entry_ok(
            a,
            r,
            k,
            c,
        )
    &&& forall|k: int, c: int|
        0 <= k < r.states@.len() && 0 <= c < a.alphabet@.len() ==> #[trigger] min_entry_complete(
            a,
            r,
            k,
            c,
        )
}

/// The blocks are closed under stepping into live states: a block member's
/// successor that is live lies in a block itself.
pub open spec fn block_succ_closed(a: Dfa, r: Dfa) -> bool {
    forall|k: int, u: int, c: int|
        #![trigger pos_set(r.states@[k]@).contains(u), succ_total(a, u, c)]
        0 <= k < r.states@.len() && pos_set(r.states@[k]@).contains(u) && 0 <= c
            < a.alphabet@.len() && succ_total(a, u, c) < a.states@.len() && spec_live(
            a,
            succ_total(a, u, c),
        ) ==> exists|k2: int|
            0 <= k2 < r.states@.len() && pos_set(#[trigger] r.states@[k2]@).contains(
                succ_total(a, u, c),
            )
}

/// The paired-run claim behind language preservation: after any word, the
/// minimized automaton sits exactly at the block holding the input
/// automaton's state, and at its own sink when that state merged into no
/// block.
pub proof fn lemma_min_run(a: Dfa, r: Dfa, w: Seq<int>)
    requires
        a.wf(),
        blocks_ok(a, r),
        a.states@.len() > 0,
        r.states@.len() > 0,
        r.states@.len() <= usize::MAX,
        word_ok(a, w),
    ensures
        forall|kb: int|
            0 <= kb < r.states@.len() && pos_set(#[trigger] r.states@[kb]@).contains(
                run_total(a, 0, w),
            ) ==> run_total(r, 0, w) == kb,
        (forall|kb: int|
            0 <= kb < r.states@.len() ==> !pos_set(#[trigger] r.states@[kb]@).contains(
                run_total(a, 0, w),
            )) ==> run_total(r, 0, w) == r.states@.len(),
    decreases w.len(),
{
    let n = a.states@.len() as int;
    let rn = r.states@.len() as int;
    if w.len() == 0 {
        assert(pos_set(r.states@[0]@).contains(0));
        assert forall|kb: int|
            0 <= kb < rn && pos_set(#[trigger] r.states@[kb]@).contains(0) implies 0 == kb by {
            if 0 < kb {
                assert(pos_set(r.states@[0]@).contains(0));
            }
        }
    } else {
        let w0 = w.drop_last();
        let c = w.last();
        assert(word_ok(a, w0)) by {
            assert forall|k: int| 0 <= k < w0.len() implies 0 <= #[trigger] w0[k]
                < a.alphabet@.len() by {
                assert(w0[k] == w[k]);
            }
        }
        assert(0 <= c < a.alphabet@.len()) by {
            assert(w[w.len() - 1] == c);
        }
        lemma_min_run(a, r, w0);
        lemma_run_in_range(a, 0, w0);
        let um = run_total(a, 0, w0);
        let km = run_total(r, 0, w0);
        assert(w0.push(c) =~= w);
        lemma_run_snoc(a, 0, w0, c);
        lemma_run_snoc(r, 0, w0, c);
        let u = succ_total(a, um, c);
        let k = succ_total(r, km, c);
        assert(run_total(a, 0, w) == u);
        assert(run_total(r, 0, w) == k);
        if exists|kb: int| 0 <= kb < rn && pos_set(#[trigger] r.states@[kb]@).contains(um) {
            let kb = choose|kb: int|
                0 <= kb < rn && pos_set(#[trigger] r.states@[kb]@).contains(um);
            assert(km == kb);
            let ldr = r.states@[kb]@[0] as int;
            assert(pos_set(r.states@[kb]@).contains(ldr)) by {
                assert(r.states@[kb]@[0] as int == ldr);
            }
            assert(0 <= ldr < n);
            assert(!distinguishable(a, um, ldr));
            let t = succ_total(a, ldr, c);
            // indistinguishable states step to indistinguishable states
            assert(!distinguishable(a, u, t)) by {
                if distinguishable(a, u, t) {
                    let wd = choose|wd: Seq<int>|
                        #[trigger] word_ok(a, wd) && spec_acc(a, run_total(a, u, wd)) != spec_acc(
                            a,
                            run_total(a, t, wd),
                        );
                    let wc = seq![c] + wd;
                    lemma_run_cons(a, um, c, wd);
                    lemma_run_cons(a, ldr, c, wd);
                    assert(word_ok(a, wc)) by {
                        assert forall|z: int| 0 <= z < wc.len() implies 0 <= #[trigger] wc[z]
                            < a.alphabet@.len() by {
                            if z == 0 {
                                assert(wc[0] == c);
                            } else {
                                assert(wc[z] == wd[z - 1]);
                            }
                        }
                    }
                    assert(spec_acc(a, run_total(a, um, wc)) != spec_acc(
                        a,
                        run_total(a, ldr, wc),
                    ));
                    assert(distinguishable(a, um, ldr));
                }
            }
            if exists|kb2: int| 0 <= kb2 < rn && pos_set(#[trigger] r.states@[kb2]@).contains(u) {
                let kb2 = choose|kb2: int|
                    0 <= kb2 < rn && pos_set(#[trigger] r.states@[kb2]@).contains(u);
                assert(0 <= u < n);
                assert(spec_live(a, u));
                // the leader's move is no sink: the target is live
                assert(t < n) by {
                    if t == n {
                        let wl = choose|wl: Seq<int>|
                            #[trigger] word_ok(a, wl) && spec_acc(a, run_total(a, u, wl));
                        lemma_sink_runs(a, wl);
                        assert(!spec_acc(a, run_total(a, t, wl)));
                        assert(distinguishable(a, u, t));
                    }
                }
                assert(0 <= t);
                assert(a.trans@[ldr]@[c] == Some(t as usize));
                // the target joined the same block, so the leader's move
                // names it, and completeness routes the block there
                assert(pos_set(r.states@[kb2]@).contains(t));
                assert(min_entry_complete(a, r, kb, c));
                assert((t as usize) as int == t);
                assert(pos_set(r.states@[kb2]@).contains((t as usize) as int));
                assert(r.trans@[kb]@[c] == Some(kb2 as usize));
                assert(k == kb2);
                assert forall|kb3: int|
                    0 <= kb3 < rn && pos_set(#[trigger] r.states@[kb3]@).contains(u) implies k
                    == kb3 by {
                    if kb3 < kb2 {
                        assert(pos_set(r.states@[kb3]@).contains(u));
                        assert(!pos_set(r.states@[kb2]@).contains(u));
                    }
                    if kb2 < kb3 {
                        assert(pos_set(r.states@[kb2]@).contains(u));
                        assert(!pos_set(r.states@[kb3]@).contains(u));
                    }
                }
            } else {
                // the target merged into no block: the block's transition is
                // absent, and the minimized run falls to the sink
                assert(min_entry_ok(a, r, kb, c));
                assert(r.trans@[kb]@[c] is None) by {
                    match r.trans@[kb]@[c] {
                        Some(k2u) => {
                            let k2 = k2u as int;
                            assert(0 <= k2 < rn);
                            let tg = choose|tg: usize|
                                a.trans@[ldr]@[c] == Some(tg) && pos_set(
                                    r.states@[k2]@,
                                ).contains(tg as int);
                            assert(t == tg as int);
                            assert(spec_live(a, t));
                            if u == n {
                                let wl = choose|wl: Seq<int>|
                                    #[trigger] word_ok(a, wl) && spec_acc(
                                        a,
                                        run_total(a, t, wl),
                                    );
                                lemma_sink_runs(a, wl);
                                assert(!spec_acc(a, run_total(a, u, wl)));
                                assert(distinguishable(a, u, t));
                            } else {
                                assert(0 <= u < n) by {
                                    lemma_run_in_range(a, 0, w);
                                }
                                assert(!distinguishable(a, t, u)) by {
                                    if distinguishable(a, t, u) {
                                        let wd = choose|wd: Seq<int>|
                                            #[trigger] word_ok(a, wd) && spec_acc(
                                                a,
                                                run_total(a, t, wd),
                                            ) != spec_acc(a, run_total(a, u, wd));
                                        assert(spec_acc(a, run_total(a, u, wd)) != spec_acc(
                                            a,
                                            run_total(a, t, wd),
                                        ));
                                        assert(distinguishable(a, u, t));
                                    }
                                }
                                assert(pos_set(r.states@[k2]@).contains(u));
                            }
                        },
                        None => {},
                    }
                }
                assert(k == rn);
            }
        } else {
            assert(km == rn);
            assert(k == rn);
            assert forall|kb2: int|
                0 <= kb2 < rn implies !pos_set(#[trigger] r.states@[kb2]@).contains(u) by {
                if pos_set(r.states@[kb2]@).contains(u) {
                    assert(0 <= u < n);
                    assert(spec_live(a, u));
                    assert(0 <= um < n) by {
                        if um == n {
                            assert(u == n);
                        }
                    }
                    assert(spec_live(a, um)) by {
                        let wl = choose|wl: Seq<int>|
                            #[trigger] word_ok(a, wl) && spec_acc(a, run_total(a, u, wl));
                        let wc = seq![c] + wl;
                        lemma_run_cons(a, um, c, wl);
                        assert(word_ok(a, wc)) by {
                            assert forall|z: int| 0 <= z < wc.len() implies 0 <= #[trigger] wc[z]
                                < a.alphabet@.len() by {
                                if z == 0 {
                                    assert(wc[0] == c);
                                } else {
                                    assert(wc[z] == wl[z - 1]);
                                }
                            }
                        }
                        assert(word_ok(a, wc) && spec_acc(a, run_total(a, um, wc)));
                    }
                    assert(a.spec_reachable(um)) by {
                        lemma_reach_start(a);
                        lemma_run_reach(a, 0, w0);
                    }
                    let kbm = choose|kbm: int|
                        0 <= kbm < rn && pos_set(#[trigger] r.states@[kbm]@).contains(um);
                    assert(false);
                }
            }
        }
    }
}

/// A block automaton preserves the language: a word runs to an accepting
/// state of the input automaton exactly when it runs to an accepting state of
/// the block automaton.
pub proof fn lemma_blocks_preserve_language(a: Dfa, r: Dfa)
    requires
        a.wf(),
        blocks_ok(a, r),
        r.states@.len() <= usize::MAX,
        (exists|u: int|
            0 <= u < a.states@.len() && #[trigger] a.spec_reachable(u) && a.is_terminal@[u])
            ==> r.states@.len() > 0,
    ensures
        forall|w: Seq<int>|
            #[trigger] word_ok(a, w) ==> (spec_acc(a, run_total(a, 0, w)) <==> spec_acc(
                r,
                run_total(r, 0, w),
            )),
{
    let n = a.states@.len() as int;
    let rn = r.states@.len() as int;
    assert forall|w: Seq<int>| #[trigger] word_ok(a, w) implies (spec_acc(
        a,
        run_total(a, 0, w),
    ) <==> spec_acc(r, run_total(r, 0, w))) by {
        let u = run_total(a, 0, w);
        let k = run_total(r, 0, w);
        if n == 0 {
            assert(!spec_acc(a, u));
            assert(rn == 0) by {
                if rn > 0 {
                    assert(pos_set(r.states@[0]@).contains(0));
                }
            }
            assert(!spec_acc(r, k));
        } else if rn == 0 {
            assert(!spec_acc(r, k));
            if spec_acc(a, u) {
                assert(0 <= u < n);
                lemma_reach_start(a);
                lemma_run_reach(a, 0, w);
                assert(a.spec_reachable(u) && a.is_terminal@[u]);
                assert(exists|x: int|
                    0 <= x < a.states@.len() && #[trigger] a.spec_reachable(x)
                        && a.is_terminal@[x]);
            }
        } else {
            lemma_min_run(a, r, w);
            if spec_acc(a, u) {
                assert(0 <= u < n);
                lemma_reach_start(a);
                lemma_run_reach(a, 0, w);
                assert(spec_live(a, u)) by {
                    let we = Seq::<int>::empty();
                    assert(word_ok(a, we));
                    assert(run_total(a, u, we) == u);
                }
                let kb = choose|kb: int|
                    0 <= kb < rn && pos_set(#[trigger] r.states@[kb]@).contains(u);
                assert(k == kb);
                assert(r.is_terminal@[kb] == a.is_terminal@[u]);
                assert(spec_acc(r, k));
            }
            if spec_acc(r, k) {
                assert(0 <= k < rn);
                assert(exists|kb: int|
                    0 <= kb < rn && pos_set(#[trigger] r.states@[kb]@).contains(u)) by {
                    if forall|kb: int|
                        0 <= kb < rn ==> !pos_set(#[trigger] r.states@[kb]@).contains(u) {
                        assert(k == rn);
                    }
                }
                let kb = choose|kb: int|
                    0 <= kb < rn && pos_set(#[trigger] r.states@[kb]@).contains(u);
                assert(k == kb);
                assert(a.is_terminal@[u] == r.is_terminal@[k]);
                assert(0 <= u < n);
                assert(spec_acc(a, u));
            }
        }
    }
}

/// A block accepts exactly the words its members accept: a run started at a
/// member and a run started at its block stay paired, and they fall off to
/// the respective sinks together.
pub proof fn lemma_block_run(a: Dfa, r: Dfa, u0: int, k0: int, w: Seq<int>)
    requires
        a.wf(),
        blocks_ok(a, r),
        block_succ_closed(a, r),
        r.states@.len() <= usize::MAX,
        word_ok(a, w),
        0 <= k0 < r.states@.len(),
        pos_set(r.states@[k0]@).contains(u0),
    ensures
        ({
            let u = run_total(a, u0, w);
            let k = run_total(r, k0, w);
            &&& ((0 <= k < r.states@.len() && pos_set(r.states@[k]@).contains(u)) || (k
                == r.states@.len() && (u == a.states@.len() || !spec_live(a, u))))
            &&& spec_acc(a, u) == spec_acc(r, k)
        }),
    decreases w.len(),
{
    let n = a.states@.len() as int;
    let rn = r.states@.len() as int;
    let u = run_total(a, u0, w);
    let k = run_total(r, k0, w);
    if w.len() == 0 {
        assert(u == u0 && k == k0);
        assert(0 <= u0 < n);
        assert(r.is_terminal@[k0] == a.is_terminal@[u0]);
    } else {
        let w0 = w.drop_last();
        let c = w.last();
        assert(word_ok(a, w0)) by {
            assert forall|z: int| 0 <= z < w0.len() implies 0 <= #[trigger] w0[z]
                < a.alphabet@.len() by {
                assert(w0[z] == w[z]);
            }
        }
        assert(0 <= c < a.alphabet@.len()) by {
            assert(w[w.len() - 1] == c);
        }
        lemma_block_run(a, r, u0, k0, w0);
        assert(0 <= u0 < n);
        lemma_run_in_range(a, u0, w0);
        lemma_run_in_range(a, u0, w);
        let um = run_total(a, u0, w0);
        let km = run_total(r, k0, w0);
        assert(w0.push(c) =~= w);
        lemma_run_snoc(a, u0, w0, c);
        lemma_run_snoc(r, k0, w0, c);
        assert(u == succ_total(a, um, c));
        assert(k == succ_total(r, km, c));
        if 0 <= km < rn && pos_set(r.states@[km]@).contains(um) {
            let ldr = r.states@[km]@[0] as int;
            assert(pos_set(r.states@[km]@).contains(ldr)) by {
                assert(r.states@[km]@[0] as int == ldr);
            }
            assert(0 <= ldr < n);
            assert(!distinguishable(a, um, ldr));
            let t = succ_total(a, ldr, c);
            // indistinguishable states step to indistinguishable states
            assert(!distinguishable(a, u, t)) by {
                if distinguishable(a, u, t) {
                    let wd = choose|wd: Seq<int>|
                        #[trigger] word_ok(a, wd) && spec_acc(a, run_total(a, u, wd)) != spec_acc(
                            a,
                            run_total(a, t, wd),
                        );
                    let wc = seq![c] + wd;
                    lemma_run_cons(a, um, c, wd);
                    lemma_run_cons(a, ldr, c, wd);
                    assert(word_ok(a, wc)) by {
                        assert forall|z: int| 0 <= z < wc.len() implies 0 <= #[trigger] wc[z]
                            < a.alphabet@.len() by {
                            if z == 0 {
                                assert(wc[0] == c);
                            } else {
                                assert(wc[z] == wd[z - 1]);
                            }
                        }
                    }
                    assert(spec_acc(a, run_total(a, um, wc)) != spec_acc(
                        a,
                        run_total(a, ldr, wc),
                    ));
                    assert(distinguishable(a, um, ldr));
                }
            }
            if exists|kb2: int| 0 <= kb2 < rn && pos_set(#[trigger] r.states@[kb2]@).contains(u) {
                let kb2 = choose|kb2: int|
                    0 <= kb2 < rn && pos_set(#[trigger] r.states@[kb2]@).contains(u);
                assert(0 <= u < n);
                assert(spec_live(a, u));
                assert(t < n) by {
                    if t == n {
                        let wl = choose|wl: Seq<int>|
                            #[trigger] word_ok(a, wl) && spec_acc(a, run_total(a, u, wl));
                        lemma_sink_runs(a, wl);
                        assert(!spec_acc(a, run_total(a, t, wl)));
                        assert(distinguishable(a, u, t));
                    }
                }
                assert(0 <= t);
                assert(a.trans@[ldr]@[c] == Some(t as usize));
                assert(pos_set(r.states@[kb2]@).contains(t));
                assert(min_entry_complete(a, r, km, c));
                assert((t as usize) as int == t);
                assert(pos_set(r.states@[kb2]@).contains((t as usize) as int));
                assert(r.trans@[km]@[c] == Some(kb2 as usize));
                assert(k == kb2);
            } else {
                // the member's successor merged into no block: by closure it
                // is the sink or dead, and the block's transition is absent
                assert(u == n || !spec_live(a, u)) by {
                    if u != n && spec_live(a, u) {
                        assert(succ_total(a, um, c) < n);
                        assert(exists|k2: int|
                            0 <= k2 < rn && pos_set(#[trigger] r.states@[k2]@).contains(
                                succ_total(a, um, c),
                            ));
                    }
                }
                assert(min_entry_ok(a, r, km, c));
                assert(r.trans@[km]@[c] is None) by {
                    match r.trans@[km]@[c] {
                        Some(k2u) => {
                            let k2 = k2u as int;
                            assert(0 <= k2 < rn);
                            let tg = choose|tg: usize|
                                a.trans@[ldr]@[c] == Some(tg) && pos_set(
                                    r.states@[k2]@,
                                ).contains(tg as int);
                            assert(t == tg as int);
                            assert(spec_live(a, t));
                            if u == n {
                                let wl = choose|wl: Seq<int>|
                                    #[trigger] word_ok(a, wl) && spec_acc(
                                        a,
                                        run_total(a, t, wl),
                                    );
                                lemma_sink_runs(a, wl);
                                assert(!spec_acc(a, run_total(a, u, wl)));
                                assert(distinguishable(a, u, t));
                            } else {
                                assert(0 <= u < n);
                                assert(!distinguishable(a, t, u)) by {
                                    if distinguishable(a, t, u) {
                                        let wd = choose|wd: Seq<int>|
                                            #[trigger] word_ok(a, wd) && spec_acc(
                                                a,
                                                run_total(a, t, wd),
                                            ) != spec_acc(a, run_total(a, u, wd));
                                        assert(spec_acc(a, run_total(a, u, wd)) != spec_acc(
                                            a,
                                            run_total(a, t, wd),
                                        ));
                                        assert(distinguishable(a, u, t));
                                    }
                                }
                                assert(pos_set(r.states@[k2]@).contains(u));
                            }
                        },
                        None => {},
                    }
                }
                assert(k == rn);
            }
        } else {
            assert(km == rn && (um == n || !spec_live(a, um)));
            assert(k == rn);
            if um == n {
                assert(u == n);
            } else {
                assert(u == n || !spec_live(a, u)) by {
                    if u != n && spec_live(a, u) {
                        let wl = choose|wl: Seq<int>|
                            #[trigger] word_ok(a, wl) && spec_acc(a, run_total(a, u, wl));
                        let wc = seq![c] + wl;
                        lemma_run_cons(a, um, c, wl);
                        assert(word_ok(a, wc)) by {
                            assert forall|z: int| 0 <= z < wc.len() implies 0 <= #[trigger] wc[z]
                                < a.alphabet@.len() by {
                                if z == 0 {
                                    assert(wc[0] == c);
                                } else {
                                    assert(wc[z] == wl[z - 1]);
                                }
                            }
                        }
                        assert(word_ok(a, wc) && spec_acc(a, run_total(a, um, wc)));
                        assert(spec_live(a, um));
                    }
                }
            }
        }
        // acceptance follows from the pairing
        if 0 <= k < rn && pos_set(r.states@[k]@).contains(u) {
            assert(r.is_terminal@[k] == a.is_terminal@[u]);
            assert(0 <= u < n);
        } else {
            assert(k == rn && (u == n || !spec_live(a, u)));
            assert(!spec_acc(r, k));
            assert(!spec_acc(a, u)) by {
                if spec_acc(a, u) {
                    let we = Seq::<int>::empty();
                    assert(word_ok(a, we));
                    assert(run_total(a, u, we) == u);
                    assert(spec_live(a, u));
                }
            }
        }
    }
}

/// Minimizing twice adds nothing: every state of a block automaton is live
/// and reachable and any two of its states are told apart by some word, so
/// blocks formed over it are singletons, and a second minimization emits
/// exactly as many states as the first.
pub proof fn lemma_minimize_idempotent(a: Dfa, r: Dfa, s: Dfa)
    requires
        a.wf(),
        blocks_ok(a, r),
        block_succ_closed(a, r),
        r.states@.len() <= usize::MAX,
        forall|k: int| 0 <= k < r.states@.len() ==> #[trigger] r.spec_reachable(k),
        blocks_ok(r, s),
    ensures
        s.states@.len() == r.states@.len(),
{
    let rn = r.states@.len() as int;
    let sn = s.states@.len() as int;
    if rn == 0 {
        assert(sn == 0) by {
            if sn > 0 {
                assert(s.states@[0]@.len() > 0);
                let m0 = s.states@[0]@[0] as int;
                assert(pos_set(s.states@[0]@).contains(m0)) by {
                    assert(s.states@[0]@[0] as int == m0);
                }
            }
        }
    } else {
        // every state of the block automaton is live in it: its first member
        // accepts some word, and the paired runs agree on it
        assert forall|k: int| 0 <= k < rn implies spec_live(r, k) by {
            let u = r.states@[k]@[0] as int;
            assert(pos_set(r.states@[k]@).contains(u)) by {
                assert(r.states@[k]@[0] as int == u);
            }
            assert(spec_live(a, u));
            let wl = choose|wl: Seq<int>|
                #[trigger] word_ok(a, wl) && spec_acc(a, run_total(a, u, wl));
            lemma_block_run(a, r, u, k, wl);
            assert(spec_acc(r, run_total(r, k, wl)));
            assert(word_ok(r, wl));
        }
        // distinct states of the block automaton are distinguishable in it:
        // their first members are, and the paired runs carry the witness up
        assert forall|k1: int, k2: int|
            0 <= k1 < rn && 0 <= k2 < rn && k1 != k2 implies distinguishable(r, k1, k2) by {
            let u1 = r.states@[k1]@[0] as int;
            let u2 = r.states@[k2]@[0] as int;
            assert(pos_set(r.states@[k1]@).contains(u1)) by {
                assert(r.states@[k1]@[0] as int == u1);
            }
            assert(pos_set(r.states@[k2]@).contains(u2)) by {
                assert(r.states@[k2]@[0] as int == u2);
            }
            assert(distinguishable(a, u1, u2));
            let wd = choose|wd: Seq<int>|
                #[trigger] word_ok(a, wd) && spec_acc(a, run_total(a, u1, wd)) != spec_acc(
                    a,
                    run_total(a, u2, wd),
                );
            lemma_block_run(a, r, u1, k1, wd);
            lemma_block_run(a, r, u2, k2, wd);
            assert(word_ok(r, wd));
            assert(spec_acc(r, run_total(r, k1, wd)) != spec_acc(r, run_total(r, k2, wd)));
        }
        // each emitted second-level block names its first member, a state of
        // the first: distinct blocks name distinct states
        let firsts: Seq<int> = Seq::new(sn as nat, |i: int| s.states@[i]@[0] as int);
        assert forall|i: int, j: int| 0 <= i < j < firsts.len() implies firsts[i] != firsts[j] by {
            assert(pos_set(s.states@[i]@).contains(firsts[i])) by {
                assert(s.states@[i]@[0] as int == firsts[i]);
            }
            assert(pos_set(s.states@[j]@).contains(firsts[j])) by {
                assert(s.states@[j]@[0] as int == firsts[j]);
            }
            if firsts[i] == firsts[j] {
                assert(!pos_set(s.states@[j]@).contains(firsts[i]));
            }
        }
        assert(firsts.no_duplicates());
        firsts.unique_seq_to_set();
        assert forall|m: int| firsts.to_set().contains(m) implies set_int_range(
            0,
            rn,
        ).contains(m) by {
            let i = choose|i: int| 0 <= i < firsts.len() && firsts[i] == m;
            assert(pos_set(s.states@[i]@).contains(m)) by {
                assert(s.states@[i]@[0] as int == m);
            }
        }
        lemma_int_range(0, rn);
        seq_to_set_is_finite(firsts);
        lemma_len_subset(firsts.to_set(), set_int_range(0, rn));
        assert(sn <= rn);

        // each state of the first automaton lies in a second-level block, and
        // no two share one: distinct states are distinguishable, members of
        // one block are not
        let home = |k: int| choose|k2: int|
            0 <= k2 < sn && pos_set(#[trigger] s.states@[k2]@).contains(k);
        let homes: Seq<int> = Seq::new(rn as nat, |k: int| home(k));
        assert forall|k: int| 0 <= k < rn implies 0 <= homes[k] < sn && pos_set(
            s.states@[homes[k]]@,
        ).contains(k) by {
            assert(r.spec_reachable(k) && spec_live(r, k));
            assert(exists|k2: int|
                0 <= k2 < sn && pos_set(#[trigger] s.states@[k2]@).contains(k));
        }
        assert forall|i: int, j: int| 0 <= i < j < homes.len() implies homes[i] != homes[j] by {
            if homes[i] == homes[j] {
                assert(pos_set(s.states@[homes[i]]@).contains(i));
                assert(pos_set(s.states@[homes[i]]@).contains(j));
                assert(!distinguishable(r, i, j));
                assert(distinguishable(r, i, j));
            }
        }
        assert(homes.no_duplicates());
        homes.unique_seq_to_set();
        assert forall|m: int| homes.to_set().contains(m) implies set_int_range(
            0,
            sn,
        ).contains(m) by {
            let i = choose|i: int| 0 <= i < homes.len() && homes[i] == m;
            assert(0 <= homes[i] < sn);
        }
        lemma_int_range(0, sn);
        seq_to_set_is_finite(homes);
        lemma_len_subset(homes.to_set(), set_int_range(0, sn));
        assert(rn <= sn);
    }
}

/// What the quotient construction establishes, bundled: the kept blocks in
/// order, their member sets, and the leader-following transitions.
pub open spec fn quotient_facts(
    a: Dfa,
    mm: Seq<Seq<bool>>,
    comp: Seq<usize>,
    leaders: Seq<usize>,
    q: Dfa,
    bmap: Seq<usize>,
) -> bool {
    &&& q.states@.len() == bmap.len()
    &&& q.trans@.len() == bmap.len()
    &&& q.alphabet@ == a.alphabet@
    &&& forall|k1: int, k2: int| 0 <= k1 < k2 < bmap.len() ==> bmap[k1] < bmap[k2]
    &&& forall|k: int|
        0 <= k < bmap.len() ==> (#[trigger] bmap[k]) < leaders.len() && mm[leaders[bmap[k] as int] as int][a.states@.len() as int]
    &&& forall|b: int|
        0 <= b < leaders.len() && mm[leaders[b] as int][a.states@.len() as int] ==> has_block(
            bmap,
            b,
        )
    &&& forall|k: int|
        0 <= k < q.states@.len() ==> pos_set(#[trigger] q.states@[k]@) == Set::new(
            |u: int| 0 <= u < a.states@.len() && comp[u] as int == bmap[k] as int,
        )
    &&& forall|k: int, c: int|
        0 <= k < q.states@.len() && 0 <= c < a.alphabet@.len() ==> #[trigger] quotient_entry_ok(
            a,
            comp,
            leaders,
            mm,
            q,
            bmap,
            k,
            c,
        )
}

/// A live reachable state's block is kept, and its quotient state is
/// reachable from the quotient's start state.
pub proof fn lemma_lift_live(
    a: Dfa,
    mm: Seq<Seq<bool>>,
    comp: Seq<usize>,
    leaders: Seq<usize>,
    q: Dfa,
    bmap: Seq<usize>,
    p: Seq<int>,
)
    requires
        a.wf(),
        a.states@.len() <= usize::MAX,
        table_facts(a, mm),
        partition_facts(a, mm, comp, leaders),
        a.states@.len() > 0 ==> comp[0] == 0 && leaders.len() > 0 && leaders[0] == 0,
        quotient_facts(a, mm, comp, leaders, q, bmap),
        a.is_path(p),
        spec_live(a, p.last()),
    ensures
        exists|k: int|
            0 <= k < q.states@.len() && (#[trigger] bmap[k]) as int == comp[p.last()] as int
                && q.spec_reachable(k),
    decreases p.len(),
{
    let n = a.states@.len() as int;
    if p.len() == 1 {
        // the start state: its block is block 0, kept because the start is
        // live, and it is the quotient's own start state
        assert(p.last() == 0);
        let l0 = leaders[comp[0] as int] as int;
        assert(!mm[l0][0]);
        lemma_live_transport(a, mm, l0, 0);
        lemma_live_marked_sink(a, mm, l0);
        assert(has_block(bmap, comp[0] as int));
        let k0 = choose|k: int| 0 <= k < bmap.len() && (#[trigger] bmap[k]) as int == comp[0] as int;
        assert(k0 == 0) by {
            if k0 != 0 {
                assert(bmap[0] < bmap[k0]);
            }
        }
        crate::fsm::dfa_minimization::lemma_reach_start(q);
        assert(0 <= 0 < q.states@.len() && bmap[0] as int == comp[p.last()] as int
            && q.spec_reachable(0));
    } else {
        let pre = p.drop_last();
        let v = pre.last();
        let v2 = p.last();
        assert(0 <= v < n) by {
            assert(pre[pre.len() - 1] == v);
            assert(p[p.len() - 2] == v);
        }
        assert(0 <= v2 < n) by {
            assert(p[p.len() - 1] == v2);
        }
        assert(a.edge(v, v2)) by {
            assert(p[p.len() - 2] == v && p[p.len() - 1] == v2);
        }
        let c = choose|c: int|
            0 <= c < a.alphabet@.len() && #[trigger] a.trans@[v]@[c] == Some(v2 as usize);
        assert(succ_total(a, v, c) == v2);

        // liveness flows backwards along the edge
        let w2 = choose|w: Seq<int>| #[trigger] word_ok(a, w) && spec_acc(a, run_total(a, v2, w));
        let wv = seq![c] + w2;
        lemma_run_cons(a, v, c, w2);
        assert(word_ok(a, wv)) by {
            assert forall|k: int| 0 <= k < wv.len() implies 0 <= #[trigger] wv[k]
                < a.alphabet@.len() by {
                if k == 0 {
                    assert(wv[0] == c);
                } else {
                    assert(wv[k] == w2[k - 1]);
                }
            }
        }
        assert(spec_live(a, v)) by {
            assert(word_ok(a, wv) && spec_acc(a, run_total(a, v, wv)));
        }
        assert(a.is_path(pre)) by {
            assert(pre.len() > 0 && pre[0] == p[0]);
            assert forall|k: int| 0 <= k < pre.len() implies 0 <= #[trigger] pre[k]
                < a.states@.len() by {
                assert(pre[k] == p[k]);
            }
            assert forall|k: int| 0 < k < pre.len() implies a.edge(pre[k - 1], #[trigger] pre[k]) by {
                assert(pre[k] == p[k] && pre[k - 1] == p[k - 1]);
            }
        }
        lemma_lift_live(a, mm, comp, leaders, q, bmap, pre);
        let k_pre = choose|k: int|
            0 <= k < q.states@.len() && (#[trigger] bmap[k]) as int == comp[v] as int
                && q.spec_reachable(k);

        // the leader's transition on this symbol cannot be absent
        let l = leaders[comp[v] as int] as int;
        assert(!mm[l][v]);
        lemma_live_marked_sink(a, mm, v2);
        assert(a.trans@[l]@[c] is Some) by {
            if a.trans@[l]@[c] is None {
                assert(succ_total(a, l, c) == n);
                assert(!mm[succ_total(a, l, c)][succ_total(a, v, c)]);
                assert(!mm[n][v2]);
                assert(mm[n][v2]);
            }
        }
        let tg = a.trans@[l]@[c]->Some_0 as int;
        assert(succ_total(a, l, c) == tg);
        assert(0 <= tg < n);
        assert(!mm[tg][v2]) by {
            assert(!mm[succ_total(a, l, c)][succ_total(a, v, c)]);
        }
        lemma_live_transport(a, mm, tg, v2);
        lemma_unmarked_agree(a, mm, tg, v2);
        lemma_agreeing_same_block(a, mm, comp, leaders, tg, v2);
        assert(comp[tg] == comp[v2]);

        // the target's block is kept
        let l2 = leaders[comp[v2] as int] as int;
        assert(!mm[l2][v2]);
        lemma_live_transport(a, mm, l2, v2);
        lemma_live_marked_sink(a, mm, l2);

        // the quotient edge follows the leader into the target's block
        assert(quotient_entry_ok(a, comp, leaders, mm, q, bmap, k_pre, c));
        assert(leaders[bmap[k_pre] as int] as int == l);
        match q.trans@[k_pre]@[c] {
            Some(k2) => {
                assert(0 <= k2 < bmap.len() && bmap[k2 as int] as int == comp[tg] as int);
                assert(q.edge(k_pre, k2 as int)) by {
                    assert(q.trans@[k_pre]@[c] == Some(k2));
                }
                lemma_reach_step(q, k_pre, k2 as int);
                assert(0 <= k2 < q.states@.len() && bmap[k2 as int] as int == comp[p.last()] as int
                    && q.spec_reachable(k2 as int));
            },
            None => {
                assert(false);
            },
        }
    }
}

/// Closed flags that hold at the start state hold along every path.
pub proof fn lemma_flags_cover(d: Dfa, flags: Seq<bool>, p: Seq<int>)
    requires
        d.states@.len() <= usize::MAX,
        flags.len() == d.states@.len(),
        d.states@.len() > 0 ==> flags[0],
        forall|u: int|
            0 <= u < flags.len() && flags[u] ==> #[trigger] succs_marked(d, flags, u),
        d.is_path(p),
    ensures
        flags[p.last()],
    decreases p.len(),
{
    if p.len() == 1 {
        assert(p.last() == 0);
    } else {
        let pre = p.drop_last();
        assert(d.is_path(pre)) by {
            assert(pre.len() > 0 && pre[0] == p[0]);
            assert forall|k: int| 0 <= k < pre.len() implies 0 <= #[trigger] pre[k]
                < d.states@.len() by {
                assert(pre[k] == p[k]);
            }
            assert forall|k: int| 0 < k < pre.len() implies d.edge(pre[k - 1], #[trigger] pre[k]) by {
                assert(pre[k] == p[k] && pre[k - 1] == p[k - 1]);
            }
        }
        lemma_flags_cover(d, flags, pre);
        let u = pre.last();
        let v = p.last();
        assert(d.edge(u, v)) by {
            assert(p[p.len() - 2] == u && p[p.len() - 1] == v);
        }
        let c = choose|c: int|
            0 <= c < d.alphabet@.len() && #[trigger] d.trans@[u]@[c] == Some(v as usize);
        assert(0 <= u < d.states@.len()) by {
            assert(pre[pre.len() - 1] == u);
        }
        assert(0 <= v < d.states@.len()) by {
            assert(p[p.len() - 1] == v);
        }
        assert(succs_marked(d, flags, u));
        assert(match d.trans@[u]@[c] {
            Some(vv) => flags[vv as int],
            None => true,
        });
        assert(flags[(v as usize) as int]);
    }
}

/// A pruned transition entry re-maps the unpruned automaton's entry through
/// the kept-state index map.
pub open spec fn prune_edge_ok(
    q: Dfa,
    r: Dfa,
    newidx: Seq<usize>,
    oldidx: Seq<usize>,
    k: int,
    c: int,
) -> bool {
    r.trans@[k]@[c] == (match q.trans@[oldidx[k] as int]@[c] {
        Some(v) => Some(newidx[v as int]),
        None => None::<usize>,
    })
}

/// Lifts a path of the unpruned automaton through the pruning map: every
/// state on the path carries the reachability flag, and the mapped endpoint
/// is reachable in the pruned automaton.
pub proof fn lemma_lift_path(
    q: Dfa,
    r: Dfa,
    reach: Seq<bool>,
    newidx: Seq<usize>,
    oldidx: Seq<usize>,
    p: Seq<int>,
)
    requires
        q.wf(),
        q.states@.len() <= usize::MAX,
        r.alphabet@ == q.alphabet@,
        reach.len() == q.states@.len(),
        newidx.len() == reach.len(),
        r.states@.len() == oldidx.len(),
        r.trans@.len() == oldidx.len(),
        forall|k1: int, k2: int| 0 <= k1 < k2 < oldidx.len() ==> oldidx[k1] < oldidx[k2],
        forall|k: int|
            0 <= k < oldidx.len() ==> (#[trigger] oldidx[k]) < q.states@.len()
                && reach[oldidx[k] as int],
        forall|v: int|
            0 <= v < reach.len() && reach[v] ==> (#[trigger] newidx[v]) < oldidx.len()
                && oldidx[newidx[v] as int] as int == v,
        oldidx.len() > 0 ==> oldidx[0] == 0,
        forall|u: int|
            0 <= u < reach.len() && reach[u] ==> #[trigger] succs_marked(q, reach, u),
        forall|k: int, c: int|
            0 <= k < oldidx.len() && 0 <= c < q.alphabet@.len() ==> #[trigger] prune_edge_ok(
                q,
                r,
                newidx,
                oldidx,
                k,
                c,
            ),
        reach.len() > 0,
        reach[0],
        q.is_path(p),
    ensures
        0 <= p.last() < reach.len(),
        reach[p.last()],
        r.spec_reachable(newidx[p.last()] as int),
    decreases p.len(),
{
    if p.len() == 1 {
        assert(p.last() == 0);
        assert(newidx[0] < oldidx.len() && oldidx[newidx[0] as int] as int == 0);
        assert(newidx[0] as int == 0) by {
            if newidx[0] as int != 0 {
                assert(oldidx[0] < oldidx[newidx[0] as int]);
            }
        }
        let p2: Seq<int> = seq![0];
        assert(r.is_path(p2));
        assert(r.spec_reachable(0));
    } else {
        let pre = p.drop_last();
        assert(q.is_path(pre)) by {
            assert(pre.len() > 0 && pre[0] == p[0]);
            assert forall|k: int| 0 <= k < pre.len() implies 0 <= #[trigger] pre[k]
                < q.states@.len() by {
                assert(pre[k] == p[k]);
            }
            assert forall|k: int| 0 < k < pre.len() implies q.edge(pre[k - 1], #[trigger] pre[k]) by {
                assert(pre[k] == p[k] && pre[k - 1] == p[k - 1]);
            }
        }
        lemma_lift_path(q, r, reach, newidx, oldidx, pre);
        let u = pre.last();
        let w = p.last();
        assert(p[p.len() - 2] == u && p[p.len() - 1] == w);
        assert(0 <= w < q.states@.len());
        assert(0 <= u < q.states@.len());
        assert(q.edge(u, w));
        let c = choose|c: int|
            0 <= c < q.alphabet@.len() && #[trigger] q.trans@[u]@[c] == Some(w as usize);
        assert(reach[w]) by {
            assert(succs_marked(q, reach, u));
            assert(q.trans@[u]@[c] == Some(w as usize));
            assert(match q.trans@[u]@[c] {
                Some(v) => reach[v as int],
                None => true,
            });
            assert((w as usize) as int == w);
        }
        let ku = newidx[u] as int;
        assert(oldidx[ku] as int == u);
        assert(prune_edge_ok(q, r, newidx, oldidx, ku, c));
        assert(q.trans@[oldidx[ku] as int]@[c] == Some(w as usize));
        assert(r.trans@[ku]@[c] == Some(newidx[(w as usize) as int]));
        assert(r.trans@[ku]@[c] == Some(newidx[w]));
        assert(newidx[w] < oldidx.len());
        assert(r.edge(ku, newidx[w as int] as int)) by {
            assert(r.trans@[ku]@[c] == Some(newidx[w as int]));
        }
        lemma_reach_step(r, ku, newidx[w as int] as int);
    }
}

/// A transition of the minimized automaton is sound: a present entry names
/// the state holding the target of the block leader's transition (the leader
/// is the block's first, least, member), and an absent entry means the
/// leader's transition is absent or leads to a state that merged into no
/// emitted block (a dead state).
pub open spec fn min_entry_ok(a: Dfa, r: Dfa, k: int, c: int) -> bool {
    let ldr = r.states@[k]@[0] as int;
    match r.trans@[k]@[c] {
        Some(k2) => 0 <= k2 < r.states@.len() && (a.trans@[ldr]@[c] matches Some(tg)
            && pos_set(r.states@[k2 as int]@).contains(tg as int)),
        None => match a.trans@[ldr]@[c] {
            Some(tg) => forall|k2: int|
                0 <= k2 < r.states@.len() ==> !pos_set(#[trigger] r.states@[k2]@).contains(
                    tg as int,
                ),
            None => true,
        },
    }
}

/// A transition of the minimized automaton is complete: when the block
/// leader's transition leads into a state some emitted block holds, the block
/// transitions there.
pub open spec fn min_entry_complete(a: Dfa, r: Dfa, k: int, c: int) -> bool {
    let ldr = r.states@[k]@[0] as int;
    match a.trans@[ldr]@[c] {
        Some(tg) => forall|k2: int|
            0 <= k2 < r.states@.len() && pos_set(#[trigger] r.states@[k2]@).contains(tg as int)
                ==> r.trans@[k]@[c] == Some(k2 as usize),
        None => r.trans@[k]@[c] is None,
    }
}

/// Minimizes a DFA: distinguishable state pairs are computed by table
/// filling over reverse transitions (with an implicit sink totalizing the
/// transition function), unmarked states merge into blocks, dead blocks (the
/// sink's class) vanish into missing transitions, and blocks unreachable from
/// the start block are dropped. Every emitted state lists the original states
/// it merged; state 0 is the start block; every emitted state is reachable;
/// a block is accepting exactly as its members all are. The emitted blocks
/// are the equivalence classes of the live reachable states, the language is
/// preserved word for word, and a second minimization emits the same number
/// of states (`lemma_minimize_idempotent`).
pub fn minimize(a: &Dfa) -> (r: Dfa)
    requires
        a.wf(),
        a.states@.len() < usize::MAX,
    ensures
        r.wf(),
        r.alphabet@ == a.alphabet@,
        a.states@.len() == 0 ==> r.states@.len() == 0,
        (exists|u: int|
            0 <= u < a.states@.len() && #[trigger] a.spec_reachable(u) && a.is_terminal@[u])
            ==> r.states@.len() > 0,
        forall|u: int|
            0 <= u < a.states@.len() && #[trigger] a.spec_reachable(u) && spec_live(*a, u)
                ==> exists|k: int|
                0 <= k < r.states@.len() && pos_set(#[trigger] r.states@[k]@).contains(u),
        forall|k: int, u: int, v: int|
            #![trigger pos_set(r.states@[k]@).contains(u), pos_set(r.states@[k]@).contains(v)]
            0 <= k < r.states@.len() && pos_set(r.states@[k]@).contains(u) && pos_set(
                r.states@[k]@,
            ).contains(v) ==> !distinguishable(*a, u, v),
        forall|k1: int, k2: int, u: int, v: int|
            #![trigger pos_set(r.states@[k1]@).contains(u), pos_set(r.states@[k2]@).contains(v)]
            0 <= k1 < r.states@.len() && 0 <= k2 < r.states@.len() && k1 != k2 && pos_set(
                r.states@[k1]@,
            ).contains(u) && pos_set(r.states@[k2]@).contains(v) ==> distinguishable(*a, u, v),
        forall|k: int| 0 <= k < r.states@.len() ==> #[trigger] r.spec_reachable(k),
        forall|k: int|
            0 <= k < r.states@.len() ==> strictly_sorted(#[trigger] r.states@[k]@)
                && r.states@[k]@.len() > 0,
        forall|k: int, u: int|
            0 <= k < r.states@.len() && #[trigger] pos_set(r.states@[k]@).contains(u) ==> 0 <= u
                < a.states@.len(),
        forall|k1: int, k2: int, u: int|
            0 <= k1 < k2 < r.states@.len() && #[trigger] pos_set(r.states@[k1]@).contains(u)
                ==> !(#[trigger] pos_set(r.states@[k2]@).contains(u)),
        forall|k: int, u: int|
            0 <= k < r.states@.len() && #[trigger] pos_set(r.states@[k]@).contains(u)
                ==> r.is_terminal@[k] == a.is_terminal@[u],
        r.states@.len() > 0 ==> pos_set(r.states@[0]@).contains(0),
        forall|k: int, c: int|
            0 <= k < r.states@.len() && 0 <= c < a.alphabet@.len() ==> #[trigger] min_entry_ok(
                *a,
                r,
                k,
                c,
            ),
        forall|k: int, c: int|
            0 <= k < r.states@.len() && 0 <= c < a.alphabet@.len()
                ==> #[trigger] min_entry_complete(*a, r, k, c),
        forall|k: int, u: int|
            0 <= k < r.states@.len() && #[trigger] pos_set(r.states@[k]@).contains(u)
                ==> spec_live(*a, u),
        forall|k: int, u: int, v: int|
            #![trigger pos_set(r.states@[k]@).contains(u), pos_set(r.states@[k]@).contains(v)]
            0 <= k < r.states@.len() && pos_set(r.states@[k]@).contains(u) && 0 <= v
                < a.states@.len() && !distinguishable(*a, u, v) ==> pos_set(
                r.states@[k]@,
            ).contains(v),
        forall|w: Seq<int>|
            #[trigger] word_ok(*a, w) ==> (spec_acc(*a, run_total(*a, 0, w)) <==> spec_acc(
                r,
                run_total(r, 0, w),
            )),
        block_succ_closed(*a, r),
        blocks_ok(*a, r),
{
    let n = a.states.len();
    if n == 0 {
        let empty = Dfa {
            alphabet: a.alphabet.clone(),
            states: Vec::new(),
            trans: Vec::new(),
            is_terminal: Vec::new(),
        };
        proof {
            assert(empty.alphabet@ == a.alphabet@);
            assert forall|w: Seq<int>| #[trigger] word_ok(*a, w) implies (spec_acc(
                *a,
                run_total(*a, 0, w),
            ) <==> spec_acc(empty, run_total(empty, 0, w))) by {
                assert(a.states@.len() == 0);
            }
            assert(empty.wf());
            assert(blocks_ok(*a, empty));
        }
        return empty;
    }

    let rev_trans = get_reverse_trans(a);
    let marked = build_table(a, &rev_trans);
    let (comp, leaders) = calc_components(&marked, n);

    // a start state indistinguishable from the sink accepts nothing: the
    // whole language is empty, and so is its minimal automaton
    proof {
        assert(marked@[0]@ == mat(marked@)[0]);
    }
    if !marked[0][n] {
        // the start state is indistinguishable from the sink: no reachable
        // live state exists, and the empty automaton is the answer
        proof {
            if exists|u: int|
                0 <= u < a.states@.len() && #[trigger] a.spec_reachable(u) && a.is_terminal@[u] {
                lemma_live_start_marked(*a, mat(marked@));
            }
            assert(table_facts(*a, mat(marked@)));
            if exists|u: int|
                0 <= u < a.states@.len() && #[trigger] a.spec_reachable(u) && spec_live(*a, u) {
                let u = choose|u: int|
                    0 <= u < a.states@.len() && #[trigger] a.spec_reachable(u) && spec_live(
                        *a,
                        u,
                    );
                let p = choose|p: Seq<int>| a.is_path(p) && p.last() == u;
                lemma_path_gives_word(*a, p);
                let w0 = choose|w: Seq<int>|
                    (forall|k: int| 0 <= k < w.len() ==> 0 <= #[trigger] w[k]
                        < a.alphabet@.len()) && #[trigger] run_total(*a, 0, w) == u;
                let w1 = choose|w: Seq<int>|
                    #[trigger] word_ok(*a, w) && spec_acc(*a, run_total(*a, u, w));
                lemma_run_append(*a, 0, w0, w1);
                assert(spec_live(*a, 0)) by {
                    assert(word_ok(*a, w0 + w1)) by {
                        assert forall|k: int|
                            0 <= k < (w0 + w1).len() implies 0 <= #[trigger] (w0 + w1)[k]
                            < a.alphabet@.len() by {
                            if k < w0.len() {
                                assert((w0 + w1)[k] == w0[k]);
                            } else {
                                assert((w0 + w1)[k] == w1[k - w0.len()]);
                            }
                        }
                    }
                    assert(spec_acc(*a, run_total(*a, 0, w0 + w1)));
                }
                lemma_live_marked_sink(*a, mat(marked@), 0);
            }
        }
        let empty = Dfa {
            alphabet: a.alphabet.clone(),
            states: Vec::new(),
            trans: Vec::new(),
            is_terminal: Vec::new(),
        };
        proof {
            assert(empty.alphabet@ == a.alphabet@);
            // a word the input accepts would tell the start state and the
            // sink apart, but their pair is unmarked
            assert forall|w: Seq<int>| #[trigger] word_ok(*a, w) implies (spec_acc(
                *a,
                run_total(*a, 0, w),
            ) <==> spec_acc(empty, run_total(empty, 0, w))) by {
                assert(!spec_acc(empty, run_total(empty, 0, w)));
                if spec_acc(*a, run_total(*a, 0, w)) {
                    lemma_sink_runs(*a, w);
                    assert(!spec_acc(*a, run_total(*a, n as int, w)));
                    lemma_distinguished_marked(*a, mat(marked@), 0, n as int, w);
                    assert(mat(marked@)[0][n as int]);
                }
            }
            assert(empty.wf());
            assert(blocks_ok(*a, empty));
        }
        return empty;
    }

    let (q, bmap) = build_dfa(a, &comp, &leaders, &marked);
    proof {
        // the start block is kept, and it is the first kept block
        assert(leaders@[comp@[0] as int] == 0 && comp@[0] == 0);
        assert(mat(marked@)[leaders@[0] as int][n as int]);
        assert(has_block(bmap@, 0));
        let k0 = choose|k: int| 0 <= k < bmap@.len() && (#[trigger] bmap@[k]) as int == 0;
        assert(bmap@[0] as int == 0) by {
            if k0 != 0 {
                assert(bmap@[0] < bmap@[k0]);
            }
        }
        assert(pos_set(q.states@[0]@).contains(0));
    }

    let reach = find_reachable(&q);

    let nq = q.states.len();
    let mut newidx: Vec<usize> = Vec::new();
    let mut oldidx: Vec<usize> = Vec::new();
    let mut v: usize = 0;
    while v < nq
        invariant
            v <= nq,
            nq == q.states@.len(),
            reach@.len() == nq,
            newidx@.len() == v,
            forall|k1: int, k2: int| 0 <= k1 < k2 < oldidx@.len() ==> oldidx@[k1] < oldidx@[k2],
            forall|k: int|
                0 <= k < oldidx@.len() ==> (#[trigger] oldidx@[k]) < v && reach@[oldidx@[k] as int],
            forall|w: int|
                0 <= w < v && reach@[w] ==> (#[trigger] newidx@[w]) < oldidx@.len()
                    && oldidx@[newidx@[w] as int] as int == w,
            nq > 0 && v > 0 && reach@[0] ==> oldidx@.len() > 0 && oldidx@[0] == 0,
        decreases nq - v,
    {
        if reach[v] {
            newidx.push(oldidx.len());
            oldidx.push(v);
        } else {
            newidx.push(0);
        }
        v += 1;
    }

    let mut res = Dfa {
        alphabet: a.alphabet.clone(),
        states: Vec::new(),
        trans: Vec::new(),
        is_terminal: Vec::new(),
    };
    proof {
        assert(res.alphabet@ == a.alphabet@);
        assert(q.alphabet@ == a.alphabet@);
    }
    let mut k: usize = 0;
    while k < oldidx.len()
        invariant
            a.wf(),
            q.wf(),
            n == a.states@.len(),
            nq == q.states@.len(),
            reach@.len() == nq,
            newidx@.len() == nq,
            q.alphabet@ == a.alphabet@,
            res.alphabet@ == a.alphabet@,
            forall|k1: int, k2: int| 0 <= k1 < k2 < oldidx@.len() ==> oldidx@[k1] < oldidx@[k2],
            forall|kk: int|
                0 <= kk < oldidx@.len() ==> (#[trigger] oldidx@[kk]) < nq
                    && reach@[oldidx@[kk] as int],
            forall|w: int|
                0 <= w < nq && reach@[w] ==> (#[trigger] newidx@[w]) < oldidx@.len()
                    && oldidx@[newidx@[w] as int] as int == w,
            forall|u: int| 0 <= u < nq && reach@[u] ==> #[trigger] succs_marked(q, reach@, u),
            k <= oldidx@.len(),
            res.states@.len() == k,
            res.trans@.len() == k,
            res.is_terminal@.len() == k,
            forall|kk: int|
                0 <= kk < k ==> res.states@[kk]@ == q.states@[#[trigger] oldidx@[kk] as int]@,
            forall|kk: int|
                0 <= kk < k ==> #[trigger] res.is_terminal@[kk] == q.is_terminal@[oldidx@[kk] as int],
            forall|kk: int|
                0 <= kk < k ==> (#[trigger] res.trans@[kk]@).len() == a.alphabet@.len(),
            forall|kk: int, c: int|
                0 <= kk < k && 0 <= c < a.alphabet@.len() ==> #[trigger] prune_edge_ok(
                    q,
                    res,
                    newidx@,
                    oldidx@,
                    kk,
                    c,
                ),
            forall|kk: int, c: int|
                0 <= kk < k && 0 <= c < a.alphabet@.len() ==> match (
                #[trigger] res.trans@[kk]@[c]) {
                    Some(k2) => k2 < oldidx@.len(),
                    None => true,
                },
        decreases oldidx@.len() - k,
    {
        let old = oldidx[k];
        let mut row: Vec<Option<usize>> = Vec::new();
        let mut c: usize = 0;
        while c < q.alphabet.len()
            invariant
                q.wf(),
                nq == q.states@.len(),
                reach@.len() == nq,
                newidx@.len() == nq,
                q.alphabet@ == a.alphabet@,
                old < nq,
                reach@[old as int],
                forall|w: int|
                    0 <= w < nq && reach@[w] ==> (#[trigger] newidx@[w]) < oldidx@.len()
                        && oldidx@[newidx@[w] as int] as int == w,
                forall|u: int| 0 <= u < nq && reach@[u] ==> #[trigger] succs_marked(q, reach@, u),
                c <= q.alphabet@.len(),
                row@.len() == c,
                forall|cc: int|
                    0 <= cc < c ==> #[trigger] row@[cc] == (match q.trans@[old as int]@[cc] {
                        Some(v) => Some(newidx@[v as int]),
                        None => None::<usize>,
                    }),
                forall|cc: int|
                    0 <= cc < c ==> match (#[trigger] row@[cc]) {
                        Some(k2) => k2 < oldidx@.len(),
                        None => true,
                    },
            decreases q.alphabet@.len() - c,
        {
            let entry: Option<usize> = match q.trans[old][c] {
                Some(v) => {
                    proof {
                        assert(succs_marked(q, reach@, old as int));
                        assert(q.trans@[old as int]@[c as int] == Some(v));
                        assert(reach@[v as int]);
                    }
                    Some(newidx[v])
                },
                None => None,
            };
            row.push(entry);
            c += 1;
        }
        let ghost res0 = res;
        res.states.push(q.states[old].clone());
        res.trans.push(row);
        res.is_terminal.push(q.is_terminal[old]);
        proof {
            assert(forall|kk: int|
                0 <= kk < k ==> res.trans@[kk] == res0.trans@[kk] && res.states@[kk]
                    == res0.states@[kk]);
            assert(res.trans@[k as int]@ == row@);
            assert forall|kk: int, c: int|
                0 <= kk < k + 1 && 0 <= c < a.alphabet@.len() implies #[trigger] prune_edge_ok(
                q,
                res,
                newidx@,
                oldidx@,
                kk,
                c,
            ) by {
                if kk < k {
                    assert(prune_edge_ok(q, res0, newidx@, oldidx@, kk, c));
                    assert(res.trans@[kk] == res0.trans@[kk]);
                } else {
                    assert(res.trans@[kk]@[c] == row@[c]);
                    assert(oldidx@[kk] == old);
                }
            }
        }
        k += 1;
    }
    proof {
        let rn = res.states@.len();
        let ghost nn = n as int;

        // structural well-formedness of the pruned automaton
        assert forall|i: int, c: int|
            0 <= i < res.trans@.len() && 0 <= c < res.alphabet@.len() implies match (
        #[trigger] res.trans@[i]@[c]) {
            Some(j) => j < res.states@.len(),
            None => true,
        } by {}
        assert(res.wf());

        // every emitted state is reachable: lift a path of the quotient
        assert forall|k: int| 0 <= k < rn implies #[trigger] res.spec_reachable(k) by {
            let oldq = oldidx@[k] as int;
            assert(reach@[oldq]);
            assert(q.spec_reachable(oldq));
            let p = choose|p: Seq<int>| q.is_path(p) && p.last() == oldq;
            assert(q.states@.len() == nq as int);
            lemma_lift_path(q, res, reach@, newidx@, oldidx@, p);
            assert(newidx@[oldq] as int == k) by {
                assert(oldidx@[newidx@[oldq] as int] as int == oldq);
                if newidx@[oldq] as int != k {
                    if (newidx@[oldq] as int) < k {
                        assert(oldidx@[newidx@[oldq] as int] < oldidx@[k]);
                    } else {
                        assert(oldidx@[k] < oldidx@[newidx@[oldq] as int]);
                    }
                }
            }
        }

        // the member lists and their block structure
        assert forall|k: int|
            0 <= k < rn implies strictly_sorted(#[trigger] res.states@[k]@)
            && res.states@[k]@.len() > 0 by {
            let oldq = oldidx@[k] as int;
            assert(res.states@[k]@ == q.states@[oldq]@);
            let b = bmap@[oldq] as int;
            let ldr = leaders@[b] as int;
            assert(comp@[ldr] as int == b);
            assert(pos_set(q.states@[oldq]@).contains(ldr));
            let idx = choose|idx: int|
                0 <= idx < q.states@[oldq]@.len() && q.states@[oldq]@[idx] as int == ldr;
            assert(res.states@[k]@.len() > 0);
        }
        assert forall|k: int, u: int|
            0 <= k < rn && #[trigger] pos_set(res.states@[k]@).contains(u) implies 0 <= u
            < nn by {
            let oldq = oldidx@[k] as int;
            assert(res.states@[k]@ == q.states@[oldq]@);
        }
        assert forall|k1: int, k2: int, u: int|
            0 <= k1 < k2 < rn && #[trigger] pos_set(res.states@[k1]@).contains(u) implies !(
        #[trigger] pos_set(res.states@[k2]@).contains(u)) by {
            let o1 = oldidx@[k1] as int;
            let o2 = oldidx@[k2] as int;
            assert(o1 < o2);
            assert(bmap@[o1] < bmap@[o2]);
            assert(res.states@[k1]@ == q.states@[o1]@);
            assert(res.states@[k2]@ == q.states@[o2]@);
        }
        assert forall|k: int, u: int|
            0 <= k < rn && #[trigger] pos_set(res.states@[k]@).contains(u) implies
            res.is_terminal@[k] == a.is_terminal@[u] by {
            let oldq = oldidx@[k] as int;
            assert(res.states@[k]@ == q.states@[oldq]@);
            let b = bmap@[oldq] as int;
            let ldr = leaders@[b] as int;
            assert(0 <= u < nn && comp@[u] as int == b);
            assert(leaders@[comp@[u] as int] as int == ldr);
            assert(!mat(marked@)[ldr][u]);
            assert(spec_acc(*a, ldr) == spec_acc(*a, u));
            assert(res.is_terminal@[k] == q.is_terminal@[oldq]);
            assert(q.is_terminal@[oldq] == spec_acc(*a, ldr));
        }

        // the start state merged into state 0
        if rn > 0 {
            assert(oldidx@[0] == 0);
            assert(res.states@[0]@ == q.states@[0]@);
            assert(pos_set(res.states@[0]@).contains(0));
        }

        // the transitions follow each block's leader, its least member
        assert forall|k: int, c: int|
            0 <= k < rn && 0 <= c < a.alphabet@.len() implies #[trigger] min_entry_ok(
            *a,
            res,
            k,
            c,
        ) && min_entry_complete(*a, res, k, c) by {
            let oldq = oldidx@[k] as int;
            let b = bmap@[oldq] as int;
            let ldr = leaders@[b] as int;
            assert(res.states@[k]@ == q.states@[oldq]@);

            // the first member is the leader
            assert(comp@[ldr] as int == b);
            assert(pos_set(q.states@[oldq]@).contains(ldr));
            let idx = choose|idx: int|
                0 <= idx < q.states@[oldq]@.len() && q.states@[oldq]@[idx] as int == ldr;
            let first = res.states@[k]@[0] as int;
            assert(pos_set(res.states@[k]@).contains(first)) by {
                assert(res.states@[k]@[0] as int == first);
            }
            assert(0 <= first < nn && comp@[first] as int == b);
            assert(leaders@[comp@[first] as int] <= first);
            assert(ldr <= first);
            assert(first <= ldr) by {
                if idx > 0 {
                    assert(res.states@[k]@[0] < res.states@[k]@[idx]);
                }
            }
            assert(first == ldr);

            assert(quotient_entry_ok(*a, comp@, leaders@, mat(marked@), q, bmap@, oldq, c));
            assert(prune_edge_ok(q, res, newidx@, oldidx@, k, c));

            match a.trans@[ldr]@[c] {
                Some(tg) => {
                    assert(tg < n);
                    let tb = comp@[tg as int] as int;
                    if mat(marked@)[leaders@[tb] as int][nn] {
                        // the target block is kept in the quotient
                        let k2q = (choose|k2: usize|
                            q.trans@[oldq]@[c] == Some(k2) && 0 <= k2 < bmap@.len()
                                && bmap@[k2 as int] as int == tb) as int;
                        assert(q.trans@[oldq]@[c] == Some(k2q as usize) && 0 <= k2q
                            < bmap@.len() && bmap@[k2q] as int == tb);
                        assert(reach@[k2q]) by {
                            assert(succs_marked(q, reach@, oldq));
                            assert(match q.trans@[oldq]@[c] {
                                Some(v) => reach@[v as int],
                                None => true,
                            });
                        }
                        let k2 = newidx@[k2q] as int;
                        assert(oldidx@[k2] as int == k2q);
                        assert(res.trans@[k]@[c] == Some(newidx@[k2q]));
                        assert(res.states@[k2]@ == q.states@[k2q]@);
                        assert(pos_set(res.states@[k2]@).contains(tg as int)) by {
                            assert(comp@[tg as int] as int == tb);
                        }
                        assert(min_entry_ok(*a, res, k, c));
                        assert forall|k2x: int|
                            0 <= k2x < rn && pos_set(#[trigger] res.states@[k2x]@).contains(
                                tg as int,
                            ) implies res.trans@[k]@[c] == Some(k2x as usize) by {
                            let ox = oldidx@[k2x] as int;
                            assert(res.states@[k2x]@ == q.states@[ox]@);
                            assert(bmap@[ox] as int == tb);
                            assert(ox == k2q) by {
                                if ox < k2q {
                                    assert(bmap@[ox] < bmap@[k2q]);
                                } else if ox > k2q {
                                    assert(bmap@[k2q] < bmap@[ox]);
                                }
                            }
                            assert(k2x == k2) by {
                                if k2x < k2 {
                                    assert(oldidx@[k2x] < oldidx@[k2]);
                                } else if k2x > k2 {
                                    assert(oldidx@[k2] < oldidx@[k2x]);
                                }
                            }
                        }
                        assert(min_entry_complete(*a, res, k, c));
                    } else {
                        // the target merged into the dead class: no emitted
                        // block holds it
                        assert(q.trans@[oldq]@[c] is None);
                        assert(res.trans@[k]@[c] is None);
                        assert forall|k2: int|
                            0 <= k2 < rn implies !pos_set(#[trigger] res.states@[k2]@).contains(
                            tg as int,
                        ) by {
                            let ox = oldidx@[k2] as int;
                            assert(res.states@[k2]@ == q.states@[ox]@);
                            if pos_set(q.states@[ox]@).contains(tg as int) {
                                assert(comp@[tg as int] as int == bmap@[ox] as int);
                                assert(mat(marked@)[leaders@[bmap@[ox] as int] as int][nn]);
                            }
                        }
                        assert(min_entry_ok(*a, res, k, c));
                        assert(min_entry_complete(*a, res, k, c));
                    }
                },
                None => {
                    assert(q.trans@[oldq]@[c] is None);
                    assert(res.trans@[k]@[c] is None);
                    assert(min_entry_ok(*a, res, k, c));
                    assert(min_entry_complete(*a, res, k, c));
                },
            }
        }
        assert forall|k: int, c: int|
            0 <= k < rn && 0 <= c < a.alphabet@.len() implies #[trigger] min_entry_complete(
            *a,
            res,
            k,
            c,
        ) by {
            assert(min_entry_ok(*a, res, k, c) && min_entry_complete(*a, res, k, c));
        }
        // the start block survives pruning, so the output is never empty here
        assert(res.states@.len() > 0);

        assert(table_facts(*a, mat(marked@)));
        assert(partition_facts(*a, mat(marked@), comp@, leaders@));
        assert(quotient_facts(*a, mat(marked@), comp@, leaders@, q, bmap@));

        // every reachable live state lies in an emitted block
        assert forall|u: int|
            0 <= u < a.states@.len() && #[trigger] a.spec_reachable(u) && spec_live(
                *a,
                u,
            ) implies exists|k: int|
            0 <= k < res.states@.len() && pos_set(#[trigger] res.states@[k]@).contains(u) by {
            let p = choose|p: Seq<int>| a.is_path(p) && p.last() == u;
            lemma_lift_live(*a, mat(marked@), comp@, leaders@, q, bmap@, p);
            let kq = choose|k: int|
                0 <= k < q.states@.len() && (#[trigger] bmap@[k]) as int == comp@[u] as int
                    && q.spec_reachable(k);
            assert(pos_set(q.states@[kq]@).contains(u));
            let qp = choose|qp: Seq<int>| q.is_path(qp) && qp.last() == kq;
            lemma_flags_cover(q, reach@, qp);
            assert(reach@[kq]);
            let knew = newidx@[kq] as int;
            assert(oldidx@[knew] as int == kq);
            assert(res.states@[knew]@ == q.states@[kq]@);
            assert(0 <= knew < res.states@.len() && pos_set(res.states@[knew]@).contains(u));
        }

        // states sharing a block: no word tells them apart
        assert forall|k: int, u: int, v: int|
            #![trigger pos_set(res.states@[k]@).contains(u), pos_set(res.states@[k]@).contains(v)]
            0 <= k < rn && pos_set(res.states@[k]@).contains(u) && pos_set(
                res.states@[k]@,
            ).contains(v) implies !distinguishable(*a, u, v) by {
            let oldq = oldidx@[k] as int;
            assert(res.states@[k]@ == q.states@[oldq]@);
            let b = bmap@[oldq] as int;
            let l = leaders@[b] as int;
            assert(0 <= u < a.states@.len() && comp@[u] as int == b);
            assert(0 <= v < a.states@.len() && comp@[v] as int == b);
            assert(!mat(marked@)[l][u]);
            assert(!mat(marked@)[l][v]);
            if distinguishable(*a, u, v) {
                let w = choose|w: Seq<int>|
                    #[trigger] word_ok(*a, w) && spec_acc(*a, run_total(*a, u, w)) != spec_acc(
                        *a,
                        run_total(*a, v, w),
                    );
                lemma_unmarked_agree(*a, mat(marked@), l, u);
                lemma_unmarked_agree(*a, mat(marked@), l, v);
                assert(spec_acc(*a, run_total(*a, u, w)) == spec_acc(*a, run_total(*a, l, w)));
                assert(spec_acc(*a, run_total(*a, v, w)) == spec_acc(*a, run_total(*a, l, w)));
            }
        }

        // states of different blocks: some word tells them apart
        assert forall|k1: int, k2: int, u: int, v: int|
            #![trigger pos_set(res.states@[k1]@).contains(u), pos_set(res.states@[k2]@).contains(v)]
            0 <= k1 < rn && 0 <= k2 < rn && k1 != k2 && pos_set(res.states@[k1]@).contains(u)
                && pos_set(res.states@[k2]@).contains(v) implies distinguishable(*a, u, v) by {
            let o1 = oldidx@[k1] as int;
            let o2 = oldidx@[k2] as int;
            assert(res.states@[k1]@ == q.states@[o1]@);
            assert(res.states@[k2]@ == q.states@[o2]@);
            let b1 = bmap@[o1] as int;
            let b2 = bmap@[o2] as int;
            assert(o1 != o2) by {
                if k1 < k2 {
                    assert(oldidx@[k1] < oldidx@[k2]);
                } else {
                    assert(oldidx@[k2] < oldidx@[k1]);
                }
            }
            assert(b1 != b2) by {
                if o1 < o2 {
                    assert(bmap@[o1] < bmap@[o2]);
                } else {
                    assert(bmap@[o2] < bmap@[o1]);
                }
            }
            assert(0 <= u < a.states@.len() && comp@[u] as int == b1);
            assert(0 <= v < a.states@.len() && comp@[v] as int == b2);
            if b1 < b2 {
                let l1 = leaders@[b1] as int;
                assert(mat(marked@)[l1][v]);
                assert(!mat(marked@)[l1][u]);
                assert(distinguishable(*a, l1, v));
                let w = choose|w: Seq<int>|
                    #[trigger] word_ok(*a, w) && spec_acc(*a, run_total(*a, l1, w)) != spec_acc(
                        *a,
                        run_total(*a, v, w),
                    );
                lemma_unmarked_agree(*a, mat(marked@), l1, u);
                assert(spec_acc(*a, run_total(*a, u, w)) != spec_acc(*a, run_total(*a, v, w)));
            } else {
                let l2 = leaders@[b2] as int;
                assert(mat(marked@)[l2][u]);
                assert(!mat(marked@)[l2][v]);
                assert(distinguishable(*a, l2, u));
                let w = choose|w: Seq<int>|
                    #[trigger] word_ok(*a, w) && spec_acc(*a, run_total(*a, l2, w)) != spec_acc(
                        *a,
                        run_total(*a, u, w),
                    );
                lemma_unmarked_agree(*a, mat(marked@), l2, v);
                assert(spec_acc(*a, run_total(*a, u, w)) != spec_acc(*a, run_total(*a, v, w)));
            }
        }

        // every block member is live: the block's leader is marked against
        // the sink, and liveness carries to everything unmarked with it
        assert forall|k: int, u: int|
            0 <= k < rn && #[trigger] pos_set(res.states@[k]@).contains(u) implies spec_live(
            *a,
            u,
        ) by {
            let oldq = oldidx@[k] as int;
            assert(res.states@[k]@ == q.states@[oldq]@);
            assert(0 <= u < nn && comp@[u] as int == bmap@[oldq] as int);
            let b = bmap@[oldq] as int;
            let ldr = leaders@[b] as int;
            assert(mat(marked@)[ldr][nn]);
            assert(distinguishable(*a, ldr, nn));
            assert(spec_live(*a, ldr)) by {
                let wd = choose|wd: Seq<int>|
                    #[trigger] word_ok(*a, wd) && spec_acc(*a, run_total(*a, ldr, wd))
                        != spec_acc(*a, run_total(*a, nn, wd));
                lemma_sink_runs(*a, wd);
                assert(!spec_acc(*a, run_total(*a, nn, wd)));
                assert(word_ok(*a, wd) && spec_acc(*a, run_total(*a, ldr, wd)));
            }
            assert(!mat(marked@)[ldr][u]);
            assert(!mat(marked@)[u][ldr]);
            lemma_live_transport(*a, mat(marked@), u, ldr);
        }

        // a block holds every state indistinguishable from one of its
        // members: the blocks are whole equivalence classes
        assert forall|k: int, u: int, v: int|
            #![trigger pos_set(res.states@[k]@).contains(u), pos_set(res.states@[k]@).contains(v)]
            0 <= k < rn && pos_set(res.states@[k]@).contains(u) && 0 <= v < nn
                && !distinguishable(*a, u, v) implies pos_set(res.states@[k]@).contains(v) by {
            let oldq = oldidx@[k] as int;
            assert(res.states@[k]@ == q.states@[oldq]@);
            assert(0 <= u < nn && comp@[u] as int == bmap@[oldq] as int);
            assert forall|wd: Seq<int>| #[trigger] word_ok(*a, wd) implies spec_acc(
                *a,
                run_total(*a, u, wd),
            ) == spec_acc(*a, run_total(*a, v, wd)) by {
                if spec_acc(*a, run_total(*a, u, wd)) != spec_acc(*a, run_total(*a, v, wd)) {
                    assert(distinguishable(*a, u, v));
                }
            }
            lemma_agreeing_same_block(*a, mat(marked@), comp@, leaders@, u, v);
            assert(comp@[v] as int == bmap@[oldq] as int);
            assert(pos_set(q.states@[oldq]@).contains(v));
        }

        // stepping from a block member into a live state stays inside the
        // blocks: the target's class is live and its quotient state inherits
        // the reachability flag along the quotient edge
        assert forall|k: int, u: int, c: int|
            #![trigger pos_set(res.states@[k]@).contains(u), succ_total(*a, u, c)]
            0 <= k < rn && pos_set(res.states@[k]@).contains(u) && 0 <= c < a.alphabet@.len()
                && succ_total(*a, u, c) < nn && spec_live(*a, succ_total(*a, u, c)) implies exists|
            k2: int,
        |
            0 <= k2 < rn && pos_set(#[trigger] res.states@[k2]@).contains(
                succ_total(*a, u, c),
            ) by {
            let oldq = oldidx@[k] as int;
            assert(res.states@[k]@ == q.states@[oldq]@);
            assert(0 <= u < nn && comp@[u] as int == bmap@[oldq] as int);
            let b = bmap@[oldq] as int;
            let ldr = leaders@[b] as int;
            let t = succ_total(*a, u, c);
            let t2 = succ_total(*a, ldr, c);
            assert(0 <= ldr < nn);
            assert(0 <= t2 <= nn);
            assert(!mat(marked@)[ldr][u]);
            assert(!mat(marked@)[t2][t]);
            lemma_live_marked_sink(*a, mat(marked@), t);
            lemma_live_transport(*a, mat(marked@), t2, t);
            assert(t2 < nn) by {
                if t2 == nn {
                    let wl = choose|wl: Seq<int>|
                        #[trigger] word_ok(*a, wl) && spec_acc(*a, run_total(*a, t2, wl));
                    lemma_sink_runs(*a, wl);
                }
            }
            assert(a.trans@[ldr]@[c] == Some(t2 as usize));
            let bt = comp@[t2] as int;
            let lt = leaders@[bt] as int;
            assert(!mat(marked@)[lt][t2]);
            lemma_live_transport(*a, mat(marked@), lt, t2);
            lemma_live_marked_sink(*a, mat(marked@), lt);
            // the leader's successor and the member's successor share a class
            lemma_unmarked_agree(*a, mat(marked@), t2, t);
            assert forall|wd: Seq<int>| #[trigger] word_ok(*a, wd) implies spec_acc(
                *a,
                run_total(*a, t, wd),
            ) == spec_acc(*a, run_total(*a, t2, wd)) by {}
            lemma_agreeing_same_block(*a, mat(marked@), comp@, leaders@, t, t2);
            assert(comp@[t] as int == bt);
            // the quotient keeps the class and routes the block's edge to it
            assert(quotient_entry_ok(*a, comp@, leaders@, mat(marked@), q, bmap@, oldq, c));
            assert(mat(marked@)[lt][nn]);
            match q.trans@[oldq]@[c] {
                Some(kqu) => {
                    let kq = kqu as int;
                    assert(0 <= kq < bmap@.len() && bmap@[kq] as int == bt);
                    assert(succs_marked(q, reach@, oldq));
                    assert(reach@[oldq]);
                    assert(reach@[kq]);
                    let k2 = newidx@[kq] as int;
                    assert(k2 < oldidx@.len() && oldidx@[k2] as int == kq);
                    assert(res.states@[k2]@ == q.states@[kq]@);
                    assert(pos_set(q.states@[kq]@).contains(t));
                    assert(0 <= k2 < rn && pos_set(res.states@[k2]@).contains(t));
                },
                None => {
                    assert(false);
                },
            }
        }
        assert(block_succ_closed(*a, res));

        // the blocks carry everything the simulation needs, so the language
        // is preserved word for word
        assert(blocks_ok(*a, res));
        assert(res.states@.len() <= usize::MAX);
        lemma_blocks_preserve_language(*a, res);
    }
    res
}

} // verus!
