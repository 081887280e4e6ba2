//! Transformations that bring a context-free grammar towards a proper form:
//! dropping non-productive and unreachable symbols, removing epsilon
//! productions, removing unit productions, and eliminating left recursion.

use vstd::prelude::*;
use vstd::seq_lib::seq_to_set_is_finite;
use vstd::set_lib::lemma_len_subset;
use vstd::string::{StrSliceExecFns, StringExecFns};

use itertools::Itertools;

use crate::grammar::{
    eps_spelling, is_eps_production, spec_is_unit_production, str_set, Grammar, Production,
    Symbol, SymbolsKind, EPSILON_SYMBOL,
};

verus! {

/// A list of strings with pairwise distinct spellings.
pub open spec fn no_dup_strs(v: Seq<String>) -> bool {
    forall|i: int, j: int| 0 <= i < j < v.len() ==> (#[trigger] v[i])@ != (#[trigger] v[j])@
}

/// A list of pairwise-distinct spellings drawn from a universe is no longer
/// than the universe.
pub proof fn lemma_nodup_bound(v: Seq<String>, u: Seq<Seq<char>>)
    requires
        no_dup_strs(v),
        forall|i: int| 0 <= i < v.len() ==> u.contains((#[trigger] v[i])@),
    ensures
        v.len() <= u.len(),
{
    let views = v.map_values(|s: String| s@);
    assert(views.no_duplicates()) by {
        assert forall|i: int, j: int|
            0 <= i < views.len() && 0 <= j < views.len() && i != j implies views[i]
            != views[j] by {
            assert(views[i] == v[i]@ && views[j] == v[j]@);
        }
    }
    views.unique_seq_to_set();
    assert forall|x: Seq<char>| views.to_set().contains(x) implies u.to_set().contains(x) by {
        let i = choose|i: int| 0 <= i < views.len() && views[i] == x;
        assert(u.contains(v[i]@));
    }
    seq_to_set_is_finite(views);
    seq_to_set_is_finite(u);
    lemma_len_subset(views.to_set(), u.to_set());
    u.lemma_cardinality_of_set();
}

/// Whether every symbol of the production's expression is spelled inside the
/// base set.
pub open spec fn rhs_in(p: Production, base: Set<Seq<char>>) -> bool {
    forall|k: int|
        0 <= k < p.expression@.len() ==> base.contains((#[trigger] p.expression@[k]).value@)
}

/// The set is closed under the productions: whenever a production's whole
/// expression is spelled inside the set extended by `extra`, its replaced
/// symbol is in the set.
pub open spec fn closed_wrt(
    prods: Seq<Production>,
    extra: Set<Seq<char>>,
    s: Set<Seq<char>>,
) -> bool {
    forall|pi: int|
        0 <= pi < prods.len() && rhs_in(#[trigger] prods[pi], s + extra) ==> s.contains(
            prods[pi].replaced_symbol.value@,
        )
}

/// An expression spelled inside a set is spelled inside every larger set.
pub proof fn lemma_rhs_mono(p: Production, b1: Set<Seq<char>>, b2: Set<Seq<char>>)
    requires
        rhs_in(p, b1),
        b1.subset_of(b2),
    ensures
        rhs_in(p, b2),
{
}

/// Whether the list spells `x` somewhere.
pub(crate) fn contains_str(v: &Vec<String>, x: &String) -> (r: bool)
    ensures
        r == str_set(v@).contains(x@),
{
    let mut i: usize = 0;
    while i < v.len()
        invariant
            i <= v@.len(),
            forall|k: int| 0 <= k < i ==> (#[trigger] v@[k])@ != x@,
        decreases v@.len() - i,
    {
        if v[i].eq(x) {
            proof {
                assert(str_set(v@).contains(x@));
            }
            return true;
        }
        i += 1;
    }
    proof {
        if str_set(v@).contains(x@) {
            let k = choose|k: int| 0 <= k < v@.len() && (#[trigger] v@[k])@ == x@;
            assert(v@[k]@ != x@);
        }
    }
    false
}

/// The iterated closure under the productions, seeded with the epsilon
/// symbol: symbols are added as long as some production's whole expression is
/// already inside the set (extended by the terminals when `with_terms`
/// holds). Runs until a full pass adds nothing.
pub fn _handle_n_e_loop(prods: &Vec<Production>, terms: &Vec<String>, with_terms: bool) -> (r:
    Vec<String>)
    ensures
        no_dup_strs(r@),
        str_set(r@).contains(eps_spelling()),
        forall|x: Seq<char>|
            #[trigger] str_set(r@).contains(x) ==> x == eps_spelling() || exists|pi: int|
                0 <= pi < prods@.len() && (#[trigger] prods@[pi]).replaced_symbol.value@ == x,
        closed_wrt(
            prods@,
            if with_terms {
                str_set(terms@)
            } else {
                Set::<Seq<char>>::empty()
            },
            str_set(r@),
        ),
        with_terms ==> forall|s: Set<Seq<char>>|
            s.contains(eps_spelling()) && #[trigger] closed_wrt(prods@, str_set(terms@), s)
                ==> str_set(r@).subset_of(s),
        !with_terms ==> forall|s: Set<Seq<char>>|
            s.contains(eps_spelling()) && #[trigger] closed_wrt(
                prods@,
                Set::<Seq<char>>::empty(),
                s,
            ) ==> str_set(r@).subset_of(s),
{
    let ghost extra: Set<Seq<char>> = if with_terms {
        str_set(terms@)
    } else {
        Set::<Seq<char>>::empty()
    };
    let ghost universe: Seq<Seq<char>> = seq![eps_spelling()] + prods@.map_values(
        |p: Production| p.replaced_symbol.value@,
    );

    let mut result: Vec<String> = Vec::new();
    result.push(char_string_eps());
    proof {
        assert(result@[0]@ == eps_spelling());
        assert(str_set(result@).contains(eps_spelling()));
        assert(universe.contains(eps_spelling())) by {
            assert(universe[0] == eps_spelling());
        }
        assert forall|s: Set<Seq<char>>|
            s.contains(eps_spelling()) && #[trigger] closed_wrt(
                prods@,
                extra,
                s,
            ) implies str_set(result@).subset_of(s) by {
            assert forall|x: Seq<char>| str_set(result@).contains(x) implies s.contains(x) by {
                let k = choose|k: int| 0 <= k < result@.len() && (#[trigger] result@[k])@ == x;
                assert(x == eps_spelling());
            }
        }
    }

    let mut done = false;
    while !done
        invariant
            no_dup_strs(result@),
            str_set(result@).contains(eps_spelling()),
            forall|i: int|
                0 <= i < result@.len() ==> universe.contains((#[trigger] result@[i])@),
            universe == seq![eps_spelling()] + prods@.map_values(
                |p: Production| p.replaced_symbol.value@,
            ),
            extra == (if with_terms {
                str_set(terms@)
            } else {
                Set::<Seq<char>>::empty()
            }),
            result@.len() <= universe.len(),
            forall|s: Set<Seq<char>>|
                s.contains(eps_spelling()) && #[trigger] closed_wrt(prods@, extra, s)
                    ==> str_set(result@).subset_of(s),
            done ==> closed_wrt(prods@, extra, str_set(result@)),
        decreases universe.len() - result@.len() + (if done {
            0int
        } else {
            1int
        }),
    {
        let mut changed = false;
        let ghost res0 = result@;
        let mut pi: usize = 0;
        while pi < prods.len()
            invariant
                no_dup_strs(result@),
                str_set(result@).contains(eps_spelling()),
                forall|i: int|
                    0 <= i < result@.len() ==> universe.contains((#[trigger] result@[i])@),
                universe == seq![eps_spelling()] + prods@.map_values(
                    |p: Production| p.replaced_symbol.value@,
                ),
                extra == (if with_terms {
                    str_set(terms@)
                } else {
                    Set::<Seq<char>>::empty()
                }),
                result@.len() <= universe.len(),
                forall|s: Set<Seq<char>>|
                    s.contains(eps_spelling()) && #[trigger] closed_wrt(prods@, extra, s)
                        ==> str_set(result@).subset_of(s),
                pi <= prods@.len(),
                !changed ==> result@ == res0,
                changed ==> result@.len() > res0.len(),
                forall|x: Seq<char>| str_set(res0).contains(x) ==> str_set(result@).contains(x),
                !changed ==> forall|pj: int|
                    0 <= pj < pi && rhs_in(#[trigger] prods@[pj], str_set(result@) + extra)
                        ==> str_set(result@).contains(prods@[pj].replaced_symbol.value@),
            decreases prods@.len() - pi,
        {
            let p = &prods[pi];
            // does the whole expression already lie inside the set?
            let mut all_in = true;
            let mut k: usize = 0;
            while k < p.expression.len()
                invariant
                    p == prods@[pi as int],
                    pi < prods@.len(),
                    k <= p.expression@.len(),
                    extra == (if with_terms {
                        str_set(terms@)
                    } else {
                        Set::<Seq<char>>::empty()
                    }),
                    all_in == (forall|z: int|
                        0 <= z < k ==> (str_set(result@) + extra).contains(
                            (#[trigger] p.expression@[z]).value@,
                        )),
                decreases p.expression@.len() - k,
            {
                let inside = contains_str(&result, &p.expression[k].value) || (with_terms
                    && contains_str(terms, &p.expression[k].value));
                if !inside {
                    all_in = false;
                }
                proof {
                    if !inside {
                        assert(!(str_set(result@) + extra).contains(
                            p.expression@[k as int].value@,
                        ));
                    }
                }
                k += 1;
            }
            if all_in {
                proof {
                    assert(rhs_in(prods@[pi as int], str_set(result@) + extra));
                }
                if !contains_str(&result, &p.replaced_symbol.value) {
                    let ghost before = result@;
                    result.push(p.replaced_symbol.value.clone());
                    changed = true;
                    proof {
                        assert(result@[result@.len() - 1]@
                            == prods@[pi as int].replaced_symbol.value@);
                        assert forall|s: Set<Seq<char>>|
                            s.contains(eps_spelling()) && #[trigger] closed_wrt(
                                prods@,
                                extra,
                                s,
                            ) implies str_set(result@).subset_of(s) by {
                            assert(str_set(before).subset_of(s));
                            lemma_rhs_mono(
                                prods@[pi as int],
                                str_set(before) + extra,
                                s + extra,
                            );
                            assert(s.contains(prods@[pi as int].replaced_symbol.value@));
                            assert forall|x: Seq<char>|
                                str_set(result@).contains(x) implies s.contains(x) by {
                                let k = choose|k: int|
                                    0 <= k < result@.len() && (#[trigger] result@[k])@ == x;
                                if k < before.len() {
                                    assert(str_set(before).contains(x));
                                }
                            }
                        }
                        assert(universe.contains(result@[result@.len() - 1]@)) by {
                            assert(universe[1 + pi] == prods@.map_values(
                                |p: Production| p.replaced_symbol.value@,
                            )[pi as int]);
                        }
                        assert forall|x: Seq<char>|
                            str_set(before).contains(x) implies str_set(result@).contains(x) by {
                            let i = choose|i: int|
                                0 <= i < before.len() && (#[trigger] before[i])@ == x;
                            assert(result@[i]@ == x);
                        }
                        assert(no_dup_strs(result@)) by {
                            assert forall|i: int, j: int|
                                0 <= i < j < result@.len() implies (#[trigger] result@[i])@ != (
                            #[trigger] result@[j])@ by {
                                if j == result@.len() - 1 {
                                    if result@[i]@ == result@[j]@ {
                                        assert(str_set(before).contains(result@[j]@));
                                    }
                                }
                            }
                        }
                        lemma_nodup_bound(result@, universe);
                    }
                }
            }
            pi += 1;
        }
        if !changed {
            done = true;
            proof {
                assert(closed_wrt(prods@, extra, str_set(result@)));
            }
        }
    }
    result
}

/// Builds the spelling of the empty-string symbol. Relies on String::from
/// for a character: the resulting string holds exactly that character.
#[verifier::external_body]
pub(crate) fn char_string_eps() -> (r: String)
    ensures
        r@ == eps_spelling(),
{
    String::from(EPSILON_SYMBOL)
}

/// The symbols that can derive some terminal string: the closure seeded with
/// epsilon, with the terminals counted as productive on the way.
pub fn get_productive(g: &Grammar) -> (r: Vec<String>)
    ensures
        no_dup_strs(r@),
        str_set(r@).contains(eps_spelling()),
        closed_wrt(g.productions@, str_set(g.terms@), str_set(r@)),
        forall|s: Set<Seq<char>>|
            s.contains(eps_spelling()) && #[trigger] closed_wrt(g.productions@, str_set(g.terms@), s)
                ==> str_set(r@).subset_of(s),
        forall|x: Seq<char>|
            #[trigger] str_set(r@).contains(x) ==> x == eps_spelling() || exists|pi: int|
                0 <= pi < g.productions@.len() && (
                #[trigger] g.productions@[pi]).replaced_symbol.value@ == x,
{
    _handle_n_e_loop(&g.productions, &g.terms, true)
}

/// The non-terminals that can derive the empty string: the closure seeded
/// with epsilon, terminals not counted.
pub fn get_nullable_non_terms(g: &Grammar) -> (r: Vec<String>)
    ensures
        no_dup_strs(r@),
        str_set(r@).contains(eps_spelling()),
        closed_wrt(g.productions@, Set::<Seq<char>>::empty(), str_set(r@)),
        forall|s: Set<Seq<char>>|
            s.contains(eps_spelling()) && #[trigger] closed_wrt(
                g.productions@,
                Set::<Seq<char>>::empty(),
                s,
            ) ==> str_set(r@).subset_of(s),
        forall|x: Seq<char>|
            #[trigger] str_set(r@).contains(x) ==> x == eps_spelling() || exists|pi: int|
                0 <= pi < g.productions@.len() && (
                #[trigger] g.productions@[pi]).replaced_symbol.value@ == x,
{
    _handle_n_e_loop(&g.productions, &g.terms, false)
}

/// The spelling can derive the empty string: it lies in every set that
/// contains the epsilon spelling and is closed under the productions.
pub open spec fn nullable_spelling(prods: Seq<Production>, x: Seq<char>) -> bool {
    forall|s: Set<Seq<char>>|
        s.contains(eps_spelling()) && #[trigger] closed_wrt(prods, Set::<Seq<char>>::empty(), s)
            ==> s.contains(x)
}

/// Two symbols with the same kind and spelling.
pub open spec fn sym_like(a: Symbol, b: Symbol) -> bool {
    a.kind == b.kind && a.value@ == b.value@
}

/// Two productions with the same symbols, kind for kind and spelling for
/// spelling.
pub open spec fn prod_like(a: Production, b: Production) -> bool {
    &&& sym_like(a.replaced_symbol, b.replaced_symbol)
    &&& a.expression@.len() == b.expression@.len()
    &&& forall|k: int|
        0 <= k < a.expression@.len() ==> sym_like(
            #[trigger] a.expression@[k],
            b.expression@[k],
        )
}

/// The production appears (symbol for symbol) in the list.
pub open spec fn prod_in(p: Production, sup: Seq<Production>) -> bool {
    exists|j: int| 0 <= j < sup.len() && prod_like(p, #[trigger] sup[j])
}

/// The set is closed forwards under the productions: whenever it spells a
/// production's replaced symbol, it spells the whole expression.
pub open spec fn fwd_closed(prods: Seq<Production>, s: Set<Seq<char>>) -> bool {
    forall|pi: int|
        0 <= pi < prods.len() && s.contains((#[trigger] prods[pi]).replaced_symbol.value@)
            ==> rhs_in(prods[pi], s)
}

/// Every production of `sub` is (symbol for symbol) a production of `sup`.
pub open spec fn prods_from(sub: Seq<Production>, sup: Seq<Production>) -> bool {
    forall|i: int| 0 <= i < sub.len() ==> #[trigger] prod_in(sub[i], sup)
}

/// Keeps only the productions whose replaced symbol and expression are all
/// spelled inside the allowed set: exactly those stay, symbol for symbol.
fn filter_productions(prods: &Vec<Production>, allowed: &Vec<String>) -> (r: Vec<Production>)
    ensures
        prods_from(r@, prods@),
        forall|i: int|
            0 <= i < r@.len() ==> str_set(allowed@).contains(
                (#[trigger] r@[i]).replaced_symbol.value@,
            ) && rhs_in(r@[i], str_set(allowed@)),
        forall|j: int|
            0 <= j < prods@.len() && str_set(allowed@).contains(
                (#[trigger] prods@[j]).replaced_symbol.value@,
            ) && rhs_in(prods@[j], str_set(allowed@)) ==> prod_in(prods@[j], r@),
{
    let mut r: Vec<Production> = Vec::new();
    let mut pi: usize = 0;
    while pi < prods.len()
        invariant
            pi <= prods@.len(),
            prods_from(r@, prods@),
            forall|i: int|
                0 <= i < r@.len() ==> str_set(allowed@).contains(
                    (#[trigger] r@[i]).replaced_symbol.value@,
                ) && rhs_in(r@[i], str_set(allowed@)),
            forall|j: int|
                0 <= j < pi && str_set(allowed@).contains(
                    (#[trigger] prods@[j]).replaced_symbol.value@,
                ) && rhs_in(prods@[j], str_set(allowed@)) ==> prod_in(prods@[j], r@),
        decreases prods@.len() - pi,
    {
        let p = &prods[pi];
        let mut ok = contains_str(allowed, &p.replaced_symbol.value);
        let mut k: usize = 0;
        while k < p.expression.len()
            invariant
                p == prods@[pi as int],
                pi < prods@.len(),
                k <= p.expression@.len(),
                ok == (str_set(allowed@).contains(p.replaced_symbol.value@) && forall|z: int|
                    0 <= z < k ==> str_set(allowed@).contains(
                        (#[trigger] p.expression@[z]).value@,
                    )),
            decreases p.expression@.len() - k,
        {
            if !contains_str(allowed, &p.expression[k].value) {
                ok = false;
            }
            k += 1;
        }
        let ghost r0 = r@;
        if ok {
            r.push(clone_production(p));
            proof {
                assert(prod_like(r@[r@.len() - 1], prods@[pi as int]));
                assert(str_set(allowed@).contains(r@[r@.len() - 1].replaced_symbol.value@));
                assert(rhs_in(r@[r@.len() - 1], str_set(allowed@))) by {
                    assert forall|z: int|
                        0 <= z < r@[r@.len() - 1].expression@.len() implies str_set(
                        allowed@,
                    ).contains((#[trigger] r@[r@.len() - 1].expression@[z]).value@) by {
                        assert(sym_like(
                            r@[r@.len() - 1].expression@[z],
                            prods@[pi as int].expression@[z],
                        ));
                    }
                }
                assert(prod_like(prods@[pi as int], r@[r@.len() - 1]));
                assert(prod_in(prods@[pi as int], r@));
            }
        }
        proof {
            assert forall|i: int|
                0 <= i < r@.len() implies #[trigger] prod_in(r@[i], prods@) by {
                if i < r0.len() {
                    assert(r@[i] == r0[i]);
                    assert(prod_in(r0[i], prods@));
                } else {
                    assert(prod_like(r@[i], prods@[pi as int]));
                    assert(prod_in(r@[i], prods@));
                }
            }
            assert forall|j: int|
                0 <= j < pi + 1 && str_set(allowed@).contains(
                    (#[trigger] prods@[j]).replaced_symbol.value@,
                ) && rhs_in(prods@[j], str_set(allowed@)) implies prod_in(prods@[j], r@) by {
                if j < pi {
                    assert(prod_in(prods@[j], r0));
                    let k2 = choose|k2: int|
                        0 <= k2 < r0.len() && prod_like(prods@[j], #[trigger] r0[k2]);
                    assert(r@[k2] == r0[k2]);
                    assert(prod_in(prods@[j], r@));
                } else {
                    assert(ok);
                }
            }
        }
        pi += 1;
    }
    r
}

/// Clones a symbol, kind and spelling preserved.
fn clone_symbol(s: &Symbol) -> (r: Symbol)
    ensures
        sym_like(r, *s),
{
    Symbol { kind: s.kind, value: s.value.clone() }
}

/// Clones a production, symbols preserved kind for kind and spelling for
/// spelling.
fn clone_production(p: &Production) -> (r: Production)
    ensures
        prod_like(r, *p),
{
    let replaced_symbol = clone_symbol(&p.replaced_symbol);
    let mut expression: Vec<Symbol> = Vec::new();
    let mut k: usize = 0;
    while k < p.expression.len()
        invariant
            k <= p.expression@.len(),
            expression@.len() == k,
            sym_like(replaced_symbol, p.replaced_symbol),
            forall|z: int| 0 <= z < k ==> sym_like(#[trigger] expression@[z], p.expression@[z]),
        decreases p.expression@.len() - k,
    {
        expression.push(clone_symbol(&p.expression[k]));
        k += 1;
    }
    Production { replaced_symbol, expression }
}

/// Keeps exactly the strings spelled inside the allowed set.
fn intersect_strs(v: &Vec<String>, allowed: &Vec<String>) -> (r: Vec<String>)
    ensures
        forall|x: Seq<char>|
            #[trigger] str_set(r@).contains(x) <==> (str_set(v@).contains(x) && str_set(
                allowed@,
            ).contains(x)),
{
    let mut r: Vec<String> = Vec::new();
    let mut i: usize = 0;
    while i < v.len()
        invariant
            i <= v@.len(),
            forall|x: Seq<char>|
                #[trigger] str_set(r@).contains(x) <==> (str_set(v@.subrange(0, i as int)).contains(
                    x,
                ) && str_set(allowed@).contains(x)),
        decreases v@.len() - i,
    {
        let ghost r0 = r@;
        let keep_it = contains_str(allowed, &v[i]);
        if keep_it {
            r.push(v[i].clone());
        }
        proof {
            assert(v@.subrange(0, i + 1) =~= v@.subrange(0, i as int).push(v@[i as int]));
            assert forall|x: Seq<char>|
                #[trigger] str_set(r@).contains(x) <==> (str_set(v@.subrange(0, i + 1)).contains(
                    x,
                ) && str_set(allowed@).contains(x)) by {
                if str_set(r@).contains(x) {
                    let z = choose|z: int| 0 <= z < r@.len() && (#[trigger] r@[z])@ == x;
                    if z < r0.len() {
                        assert(str_set(r0).contains(x));
                        let z2 = choose|z2: int|
                            0 <= z2 < v@.subrange(0, i as int).len() && (#[trigger] v@.subrange(
                                0,
                                i as int,
                            )[z2])@ == x;
                        assert(v@.subrange(0, i + 1)[z2]@ == x);
                    } else {
                        assert(x == v@[i as int]@);
                        assert(v@.subrange(0, i + 1)[i as int]@ == x);
                    }
                }
                if str_set(v@.subrange(0, i + 1)).contains(x) && str_set(allowed@).contains(x) {
                    let z = choose|z: int|
                        0 <= z < v@.subrange(0, i + 1).len() && (#[trigger] v@.subrange(
                            0,
                            i + 1,
                        )[z])@ == x;
                    if z < i {
                        assert(v@.subrange(0, i as int)[z]@ == x);
                        assert(str_set(r0).contains(x));
                        let z2 = choose|z2: int| 0 <= z2 < r0.len() && (#[trigger] r0[z2])@ == x;
                        assert(r@[z2]@ == x);
                    } else {
                        assert(x == v@[i as int]@);
                        assert(keep_it);
                        assert(r@[r@.len() - 1]@ == x);
                    }
                }
            }
        }
        i += 1;
    }
    proof {
        assert(v@.subrange(0, v@.len() as int) =~= v@);
    }
    r
}

/// Clones a list of strings, spellings preserved.
fn clone_strs(v: &Vec<String>) -> (r: Vec<String>)
    ensures
        r@.len() == v@.len(),
        forall|i: int| 0 <= i < v@.len() ==> (#[trigger] r@[i])@ == v@[i]@,
        forall|x: Seq<char>| str_set(r@).contains(x) <==> str_set(v@).contains(x),
{
    let mut r: Vec<String> = Vec::new();
    let mut i: usize = 0;
    while i < v.len()
        invariant
            i <= v@.len(),
            r@.len() == i,
            forall|k: int| 0 <= k < i ==> (#[trigger] r@[k])@ == v@[k]@,
        decreases v@.len() - i,
    {
        r.push(v[i].clone());
        i += 1;
    }
    proof {
        assert forall|x: Seq<char>|
            str_set(r@).contains(x) <==> str_set(v@).contains(x) by {
            if str_set(r@).contains(x) {
                let k = choose|k: int| 0 <= k < r@.len() && (#[trigger] r@[k])@ == x;
                assert(v@[k]@ == x);
            }
            if str_set(v@).contains(x) {
                let k = choose|k: int| 0 <= k < v@.len() && (#[trigger] v@[k])@ == x;
                assert(r@[k]@ == x);
            }
        }
    }
    r
}

/// Drops the symbols that cannot reach a terminal string and everything not
/// reachable from the start symbol: productions stay exactly when all their
/// symbols are productive, the non-terminals are cut down to the productive
/// ones, and the unreachable remainder is then removed.
pub fn remove_useless_symbols(g: &Grammar) -> (r: Grammar)
    ensures
        r.start@ == g.start@,
        prods_from(r.productions@, g.productions@),
        forall|x: Seq<char>|
            #[trigger] str_set(r.non_terms@).contains(x) ==> str_set(g.non_terms@).contains(x),
        forall|x: Seq<char>|
            #[trigger] str_set(r.terms@).contains(x) ==> str_set(g.terms@).contains(x),
{
    let n_e = get_productive(g);
    let n1 = intersect_strs(&g.non_terms, &n_e);

    let mut union: Vec<String> = Vec::new();
    let mut i: usize = 0;
    while i < n_e.len()
        invariant
            i <= n_e@.len(),
            union@.len() == i,
            forall|k: int| 0 <= k < i ==> (#[trigger] union@[k])@ == n_e@[k]@,
        decreases n_e@.len() - i,
    {
        union.push(n_e[i].clone());
        i += 1;
    }
    let mut i: usize = 0;
    while i < g.terms.len()
        invariant
            i <= g.terms@.len(),
            union@.len() == n_e@.len() + i,
        decreases g.terms@.len() - i,
    {
        union.push(g.terms[i].clone());
        i += 1;
    }

    let p1 = filter_productions(&g.productions, &union);
    let terms1 = clone_strs(&g.terms);
    let start1 = g.start.clone();
    proof {
        assert(start1@ == g.start@);
    }
    let g1 = Grammar { non_terms: n1, terms: terms1, productions: p1, start: start1 };
    let r = remove_unreachable(&g1);
    proof {
        assert forall|i: int|
            0 <= i < r.productions@.len() implies #[trigger] prod_in(
            r.productions@[i],
            g.productions@,
        ) by {
            assert(prod_in(r.productions@[i], g1.productions@));
            let j1 = choose|j1: int|
                0 <= j1 < g1.productions@.len() && prod_like(
                    r.productions@[i],
                    #[trigger] g1.productions@[j1],
                );
            assert(prod_in(g1.productions@[j1], g.productions@));
            let j = choose|j: int|
                0 <= j < g.productions@.len() && prod_like(
                    g1.productions@[j1],
                    #[trigger] g.productions@[j],
                );
            assert(prod_like(r.productions@[i], g.productions@[j])) by {
                assert forall|k: int|
                    0 <= k < r.productions@[i].expression@.len() implies sym_like(
                    #[trigger] r.productions@[i].expression@[k],
                    g.productions@[j].expression@[k],
                ) by {
                    assert(sym_like(
                        r.productions@[i].expression@[k],
                        g1.productions@[j1].expression@[k],
                    ));
                    assert(sym_like(
                        g1.productions@[j1].expression@[k],
                        g.productions@[j].expression@[k],
                    ));
                }
            }
            assert(prod_in(r.productions@[i], g.productions@));
        }
    }
    r
}

/// Drops everything not reachable from the start symbol: the reachable
/// symbols are the closure of the start symbol through the productions, and
/// only productions spelled wholly inside that set stay.
pub fn remove_unreachable(g: &Grammar) -> (r: Grammar)
    ensures
        r.start@ == g.start@,
        prods_from(r.productions@, g.productions@),
        forall|x: Seq<char>|
            #[trigger] str_set(r.non_terms@).contains(x) ==> str_set(g.non_terms@).contains(x),
        forall|x: Seq<char>|
            #[trigger] str_set(r.terms@).contains(x) ==> str_set(g.terms@).contains(x),
        forall|s: Set<Seq<char>>|
            s.contains(g.start@) && #[trigger] fwd_closed(g.productions@, s) ==> str_set(
                r.non_terms@,
            ).subset_of(s) && str_set(r.terms@).subset_of(s),
        forall|x: Seq<char>|
            #[trigger] str_set(g.non_terms@).contains(x) && (forall|s: Set<Seq<char>>|
                s.contains(g.start@) && #[trigger] fwd_closed(g.productions@, s) ==> s.contains(
                    x,
                )) ==> str_set(r.non_terms@).contains(x),
        forall|x: Seq<char>|
            #[trigger] str_set(g.terms@).contains(x) && (forall|s: Set<Seq<char>>|
                s.contains(g.start@) && #[trigger] fwd_closed(g.productions@, s) ==> s.contains(
                    x,
                )) ==> str_set(r.terms@).contains(x),
        forall|j: int|
            0 <= j < g.productions@.len() && (str_set(r.non_terms@) + str_set(
                r.terms@,
            )).contains((#[trigger] g.productions@[j]).replaced_symbol.value@) && rhs_in(
                g.productions@[j],
                str_set(r.non_terms@) + str_set(r.terms@),
            ) ==> prod_in(g.productions@[j], r.productions@),
{
    // every spelling a production can introduce, plus the start symbol: the
    // universe the reachable set grows inside
    let mut all_syms: Vec<String> = Vec::new();
    all_syms.push(g.start.clone());
    proof {
        assert(all_syms@[0]@ == g.start@);
    }
    let mut pi: usize = 0;
    while pi < g.productions.len()
        invariant
            pi <= g.productions@.len(),
            all_syms@.len() >= 1,
            all_syms@[0]@ == g.start@,
            forall|pj: int, k: int|
                0 <= pj < pi && 0 <= k < (#[trigger] g.productions@[pj]).expression@.len()
                    ==> str_set(all_syms@).contains(
                    (#[trigger] g.productions@[pj].expression@[k]).value@,
                ),
        decreases g.productions@.len() - pi,
    {
        let p = &g.productions[pi];
        let mut k: usize = 0;
        while k < p.expression.len()
            invariant
                p == g.productions@[pi as int],
                pi < g.productions@.len(),
                k <= p.expression@.len(),
                all_syms@.len() >= 1,
                all_syms@[0]@ == g.start@,
                forall|pj: int, kk: int|
                    0 <= pj < pi && 0 <= kk < (#[trigger] g.productions@[pj]).expression@.len()
                        ==> str_set(all_syms@).contains(
                        (#[trigger] g.productions@[pj].expression@[kk]).value@,
                    ),
                forall|kk: int|
                    0 <= kk < k ==> str_set(all_syms@).contains(
                        (#[trigger] p.expression@[kk]).value@,
                    ),
            decreases p.expression@.len() - k,
        {
            let ghost a0 = all_syms@;
            all_syms.push(p.expression[k].value.clone());
            proof {
                assert(all_syms@[all_syms@.len() - 1]@ == p.expression@[k as int].value@);
                assert forall|x: Seq<char>|
                    str_set(a0).contains(x) implies str_set(all_syms@).contains(x) by {
                    let z = choose|z: int| 0 <= z < a0.len() && (#[trigger] a0[z])@ == x;
                    assert(all_syms@[z]@ == x);
                }
                assert(str_set(all_syms@).contains(p.expression@[k as int].value@));
            }
            k += 1;
        }
        pi += 1;
    }

    let ghost universe: Seq<Seq<char>> = all_syms@.map_values(|s: String| s@);

    // grow the reachable set from the start symbol to a fixpoint
    let mut reached: Vec<String> = Vec::new();
    reached.push(g.start.clone());
    proof {
        assert(reached@[0]@ == g.start@);
        assert(universe.contains(g.start@)) by {
            assert(universe[0] == all_syms@[0]@);
        }
        assert forall|s: Set<Seq<char>>|
            s.contains(g.start@) && #[trigger] fwd_closed(g.productions@, s) implies str_set(
            reached@,
        ).subset_of(s) by {
            assert forall|x: Seq<char>| str_set(reached@).contains(x) implies s.contains(x) by {
                let k = choose|k: int| 0 <= k < reached@.len() && (#[trigger] reached@[k])@ == x;
                assert(x == g.start@);
            }
        }
    }
    let mut done = false;
    while !done
        invariant
            no_dup_strs(reached@),
            reached@.len() >= 1,
            reached@[0]@ == g.start@,
            universe == all_syms@.map_values(|s: String| s@),
            forall|i: int|
                0 <= i < reached@.len() ==> universe.contains((#[trigger] reached@[i])@),
            forall|pj: int, k: int|
                0 <= pj < g.productions@.len() && 0 <= k < (
                #[trigger] g.productions@[pj]).expression@.len() ==> str_set(all_syms@).contains(
                    (#[trigger] g.productions@[pj].expression@[k]).value@,
                ),
            reached@.len() <= universe.len(),
            forall|s: Set<Seq<char>>|
                s.contains(g.start@) && #[trigger] fwd_closed(g.productions@, s) ==> str_set(
                    reached@,
                ).subset_of(s),
            done ==> fwd_closed(g.productions@, str_set(reached@)),
        decreases universe.len() - reached@.len() + (if done {
            0int
        } else {
            1int
        }),
    {
        let mut changed = false;
        let ghost res0 = reached@;
        let mut pi: usize = 0;
        while pi < g.productions.len()
            invariant
                no_dup_strs(reached@),
                reached@.len() >= 1,
                reached@[0]@ == g.start@,
                universe == all_syms@.map_values(|s: String| s@),
                forall|i: int|
                    0 <= i < reached@.len() ==> universe.contains((#[trigger] reached@[i])@),
                forall|pj: int, k: int|
                    0 <= pj < g.productions@.len() && 0 <= k < (
                    #[trigger] g.productions@[pj]).expression@.len() ==> str_set(
                        all_syms@,
                    ).contains((#[trigger] g.productions@[pj].expression@[k]).value@),
                reached@.len() <= universe.len(),
                forall|s: Set<Seq<char>>|
                    s.contains(g.start@) && #[trigger] fwd_closed(g.productions@, s) ==> str_set(
                        reached@,
                    ).subset_of(s),
                pi <= g.productions@.len(),
                !changed ==> reached@ == res0,
                changed ==> reached@.len() > res0.len(),
                !changed ==> forall|pj: int|
                    0 <= pj < pi && str_set(reached@).contains(
                        (#[trigger] g.productions@[pj]).replaced_symbol.value@,
                    ) ==> rhs_in(g.productions@[pj], str_set(reached@)),
            decreases g.productions@.len() - pi,
        {
            let p = &g.productions[pi];
            let ghost r_ent = reached@;
            let lhs_reached = contains_str(&reached, &p.replaced_symbol.value);
            if lhs_reached {
                let mut k: usize = 0;
                while k < p.expression.len()
                    invariant
                        p == g.productions@[pi as int],
                        pi < g.productions@.len(),
                        k <= p.expression@.len(),
                        no_dup_strs(reached@),
                        reached@.len() >= 1,
                        reached@[0]@ == g.start@,
                        universe == all_syms@.map_values(|s: String| s@),
                        forall|i: int|
                            0 <= i < reached@.len() ==> universe.contains(
                                (#[trigger] reached@[i])@,
                            ),
                        forall|pj: int, kk: int|
                            0 <= pj < g.productions@.len() && 0 <= kk < (
                            #[trigger] g.productions@[pj]).expression@.len() ==> str_set(
                                all_syms@,
                            ).contains((#[trigger] g.productions@[pj].expression@[kk]).value@),
                        reached@.len() <= universe.len(),
                        forall|s: Set<Seq<char>>|
                            s.contains(g.start@) && #[trigger] fwd_closed(g.productions@, s)
                                ==> str_set(reached@).subset_of(s),
                        str_set(reached@).contains(
                            g.productions@[pi as int].replaced_symbol.value@,
                        ),
                        forall|kk: int|
                            0 <= kk < k ==> str_set(reached@).contains(
                                (#[trigger] p.expression@[kk]).value@,
                            ),
                        !changed ==> reached@ == res0,
                        !changed ==> reached@ == r_ent,
                        changed ==> reached@.len() > res0.len(),
                    decreases p.expression@.len() - k,
                {
                    if !contains_str(&reached, &p.expression[k].value) {
                        let ghost before = reached@;
                        reached.push(p.expression[k].value.clone());
                        changed = true;
                        proof {
                            assert(reached@[reached@.len() - 1]@
                                == p.expression@[k as int].value@);
                            assert forall|x: Seq<char>|
                                str_set(before).contains(x) implies str_set(
                                reached@,
                            ).contains(x) by {
                                let k2 = choose|k2: int|
                                    0 <= k2 < before.len() && (#[trigger] before[k2])@ == x;
                                assert(reached@[k2]@ == x);
                            }
                            assert(str_set(before).contains(
                                g.productions@[pi as int].replaced_symbol.value@,
                            ));
                            assert(str_set(reached@).contains(
                                g.productions@[pi as int].replaced_symbol.value@,
                            ));
                            assert forall|s: Set<Seq<char>>|
                                s.contains(g.start@) && #[trigger] fwd_closed(
                                    g.productions@,
                                    s,
                                ) implies str_set(reached@).subset_of(s) by {
                                assert(str_set(before).subset_of(s));
                                assert(s.contains(
                                    g.productions@[pi as int].replaced_symbol.value@,
                                ));
                                assert(rhs_in(g.productions@[pi as int], s));
                                assert(s.contains(p.expression@[k as int].value@));
                                assert forall|x: Seq<char>|
                                    str_set(reached@).contains(x) implies s.contains(x) by {
                                    let k2 = choose|k2: int|
                                        0 <= k2 < reached@.len() && (#[trigger] reached@[k2])@
                                            == x;
                                    if k2 < before.len() {
                                        assert(str_set(before).contains(x));
                                    }
                                }
                            }
                            assert(no_dup_strs(reached@)) by {
                                assert forall|i: int, j: int|
                                    0 <= i < j < reached@.len() implies (#[trigger] reached@[i])@
                                    != (#[trigger] reached@[j])@ by {
                                    if j == reached@.len() - 1 {
                                        if reached@[i]@ == reached@[j]@ {
                                            assert(str_set(before).contains(reached@[j]@));
                                        }
                                    }
                                }
                            }
                            assert(universe.contains(reached@[reached@.len() - 1]@)) by {
                                assert(str_set(all_syms@).contains(
                                    p.expression@[k as int].value@,
                                ));
                                let z = choose|z: int|
                                    0 <= z < all_syms@.len() && (#[trigger] all_syms@[z])@
                                        == p.expression@[k as int].value@;
                                assert(universe[z] == all_syms@[z]@);
                            }
                            lemma_nodup_bound(reached@, universe);
                        }
                    }
                    k += 1;
                }
            }
            proof {
                if !changed {
                    assert(reached@ == r_ent);
                    assert forall|pj: int|
                        0 <= pj < pi + 1 && str_set(reached@).contains(
                            (#[trigger] g.productions@[pj]).replaced_symbol.value@,
                        ) implies rhs_in(g.productions@[pj], str_set(reached@)) by {
                        if pj == pi {
                            assert(lhs_reached);
                        }
                    }
                }
            }
            pi += 1;
        }
        if !changed {
            done = true;
            proof {
                assert(fwd_closed(g.productions@, str_set(reached@)));
            }
        }
    }

    let new_productions = filter_productions(&g.productions, &reached);
    let new_non_terms = intersect_strs(&g.non_terms, &reached);
    let new_terms = intersect_strs(&g.terms, &reached);
    let start = g.start.clone();
    proof {
        assert(start@ == g.start@);
        // the kept symbol lists lie inside the least closed set
        assert forall|s: Set<Seq<char>>|
            s.contains(g.start@) && #[trigger] fwd_closed(g.productions@, s) implies str_set(
            new_non_terms@,
        ).subset_of(s) && str_set(new_terms@).subset_of(s) by {
            assert(str_set(reached@).subset_of(s));
            assert forall|x: Seq<char>|
                str_set(new_non_terms@).contains(x) implies s.contains(x) by {
                assert(str_set(reached@).contains(x));
            }
            assert forall|x: Seq<char>| str_set(new_terms@).contains(x) implies s.contains(x) by {
                assert(str_set(reached@).contains(x));
            }
        }
        // every symbol in all forward-closed sets containing the start is in
        // the computed reachable set, and so survives the intersection
        assert(str_set(reached@).contains(g.start@)) by {
            assert(reached@[0]@ == g.start@);
        }
        assert(fwd_closed(g.productions@, str_set(reached@)));
        assert forall|x: Seq<char>|
            #[trigger] str_set(g.non_terms@).contains(x) && (forall|s: Set<Seq<char>>|
                s.contains(g.start@) && #[trigger] fwd_closed(g.productions@, s) ==> s.contains(
                    x,
                )) implies str_set(new_non_terms@).contains(x) by {
            assert(str_set(reached@).contains(x));
        }
        assert forall|x: Seq<char>|
            #[trigger] str_set(g.terms@).contains(x) && (forall|s: Set<Seq<char>>|
                s.contains(g.start@) && #[trigger] fwd_closed(g.productions@, s) ==> s.contains(
                    x,
                )) implies str_set(new_terms@).contains(x) by {
            assert(str_set(reached@).contains(x));
        }

        // a production spelled wholly inside the kept symbol lists is kept
        assert forall|j: int|
            0 <= j < g.productions@.len() && (str_set(new_non_terms@) + str_set(
                new_terms@,
            )).contains((#[trigger] g.productions@[j]).replaced_symbol.value@) && rhs_in(
                g.productions@[j],
                str_set(new_non_terms@) + str_set(new_terms@),
            ) implies prod_in(g.productions@[j], new_productions@) by {
            assert((str_set(new_non_terms@) + str_set(new_terms@)).subset_of(
                str_set(reached@),
            )) by {
                assert forall|x: Seq<char>|
                    (str_set(new_non_terms@) + str_set(new_terms@)).contains(x) implies str_set(
                    reached@,
                ).contains(x) by {}
            }
            assert(str_set(reached@).contains(g.productions@[j].replaced_symbol.value@));
            lemma_rhs_mono(
                g.productions@[j],
                str_set(new_non_terms@) + str_set(new_terms@),
                str_set(reached@),
            );
            assert(prod_in(g.productions@[j], new_productions@));
        }
    }
    Grammar { non_terms: new_non_terms, terms: new_terms, productions: new_productions, start }
}

/// Whether a production is a unit production: exactly one non-terminal on
/// the right.
pub fn is_unit_production(prod: &Production) -> (r: bool)
    ensures
        r == spec_is_unit_production(*prod),
{
    prod.expression.len() == 1 && prod.expression[0].kind == SymbolsKind::NONTERM
}

/// For every non-terminal, the non-terminals its chains of unit productions
/// can reach (itself included).
fn detect_unit_productions(g: &Grammar) -> (r: Vec<(String, Vec<String>)>)
    ensures
        r@.len() == g.non_terms@.len(),
        forall|i: int| 0 <= i < r@.len() ==> (#[trigger] r@[i]).0@ == g.non_terms@[i]@,
{
    let ghost prods = g.productions@;
    let mut r: Vec<(String, Vec<String>)> = Vec::new();
    let mut ni: usize = 0;
    while ni < g.non_terms.len()
        invariant
            ni <= g.non_terms@.len(),
            r@.len() == ni,
            forall|i: int| 0 <= i < ni ==> (#[trigger] r@[i]).0@ == g.non_terms@[i]@,
        decreases g.non_terms@.len() - ni,
    {
        let nt = &g.non_terms[ni];
        let ghost universe: Seq<Seq<char>> = seq![nt@] + g.productions@.map_values(
            |p: Production|
                if p.expression@.len() >= 1 {
                    p.expression@[0].value@
                } else {
                    p.replaced_symbol.value@
                },
        );
        let mut chain: Vec<String> = Vec::new();
        chain.push(nt.clone());
        proof {
            assert(chain@[0]@ == nt@);
            assert(universe.contains(nt@)) by {
                assert(universe[0] == nt@);
            }
        }
        let mut done = false;
        while !done
            invariant
                no_dup_strs(chain@),
                universe == seq![nt@] + g.productions@.map_values(
                    |p: Production|
                        if p.expression@.len() >= 1 {
                            p.expression@[0].value@
                        } else {
                            p.replaced_symbol.value@
                        },
                ),
                forall|i: int| 0 <= i < chain@.len() ==> universe.contains((#[trigger] chain@[i])@),
                chain@.len() <= universe.len(),
            decreases universe.len() - chain@.len() + (if done {
                0int
            } else {
                1int
            }),
        {
            let mut changed = false;
            let ghost c0 = chain@;
            let mut pi: usize = 0;
            while pi < g.productions.len()
                invariant
                    no_dup_strs(chain@),
                    universe == seq![nt@] + g.productions@.map_values(
                        |p: Production|
                            if p.expression@.len() >= 1 {
                                p.expression@[0].value@
                            } else {
                                p.replaced_symbol.value@
                            },
                    ),
                    forall|i: int|
                        0 <= i < chain@.len() ==> universe.contains((#[trigger] chain@[i])@),
                    chain@.len() <= universe.len(),
                    pi <= g.productions@.len(),
                    !changed ==> chain@ == c0,
                    changed ==> chain@.len() > c0.len(),
                decreases g.productions@.len() - pi,
            {
                let p = &g.productions[pi];
                if is_unit_production(p) && contains_str(&chain, &p.replaced_symbol.value) {
                    if !contains_str(&chain, &p.expression[0].value) {
                        let ghost before = chain@;
                        chain.push(p.expression[0].value.clone());
                        changed = true;
                        proof {
                            assert(chain@[chain@.len() - 1]@
                                == g.productions@[pi as int].expression@[0].value@);
                            assert(universe.contains(chain@[chain@.len() - 1]@)) by {
                                assert(universe[1 + pi] == g.productions@.map_values(
                                    |p: Production|
                                        if p.expression@.len() >= 1 {
                                            p.expression@[0].value@
                                        } else {
                                            p.replaced_symbol.value@
                                        },
                                )[pi as int]);
                            }
                            assert(no_dup_strs(chain@)) by {
                                assert forall|i: int, j: int|
                                    0 <= i < j < chain@.len() implies (#[trigger] chain@[i])@ != (
                                #[trigger] chain@[j])@ by {
                                    if j == chain@.len() - 1 {
                                        if chain@[i]@ == chain@[j]@ {
                                            assert(str_set(before).contains(chain@[j]@));
                                        }
                                    }
                                }
                            }
                            lemma_nodup_bound(chain@, universe);
                        }
                    }
                }
                pi += 1;
            }
            if !changed {
                done = true;
            }
        }
        r.push((nt.clone(), chain));
        ni += 1;
    }
    r
}

/// Re-homes a non-unit production to every non-terminal whose unit chain
/// ends in the production's own head; a production no chain points at is
/// kept as it stands. Everything pushed keeps the production's expression,
/// so nothing pushed is a unit production.
fn extend_productions(
    new_prods: &mut Vec<Production>,
    prod: &Production,
    unit_chains: &Vec<(String, Vec<String>)>,
)
    requires
        !spec_is_unit_production(*prod),
        forall|i: int|
            0 <= i < old(new_prods)@.len() ==> !spec_is_unit_production(
                #[trigger] old(new_prods)@[i],
            ),
    ensures
        forall|i: int|
            0 <= i < final(new_prods)@.len() ==> !spec_is_unit_production(
                #[trigger] final(new_prods)@[i],
            ),
{
    let mut pushed_any = false;
    let mut ci: usize = 0;
    while ci < unit_chains.len()
        invariant
            ci <= unit_chains@.len(),
            !spec_is_unit_production(*prod),
            forall|i: int|
                0 <= i < new_prods@.len() ==> !spec_is_unit_production(
                    #[trigger] new_prods@[i],
                ),
        decreases unit_chains@.len() - ci,
    {
        let (nt, chain) = (&unit_chains[ci].0, &unit_chains[ci].1);
        if !nt.eq(&prod.replaced_symbol.value) && contains_str(chain, &prod.replaced_symbol.value)
        {
            let copied = clone_production(prod);
            let rehomed = Production {
                replaced_symbol: Symbol { kind: SymbolsKind::NONTERM, value: nt.clone() },
                expression: copied.expression,
            };
            proof {
                assert(!spec_is_unit_production(rehomed)) by {
                    if rehomed.expression@.len() == 1 {
                        assert(sym_like(rehomed.expression@[0], prod.expression@[0]));
                    }
                }
            }
            new_prods.push(rehomed);
            pushed_any = true;
        }
        ci += 1;
    }
    if !pushed_any {
        new_prods.push(clone_production(prod));
        proof {
            let last = new_prods@[new_prods@.len() - 1];
            assert(!spec_is_unit_production(last)) by {
                if last.expression@.len() == 1 {
                    assert(sym_like(last.expression@[0], prod.expression@[0]));
                }
            }
        }
    }
}

/// Removes unit productions: every non-unit production is re-homed to the
/// non-terminals whose unit chains reach its head, and the unit productions
/// themselves vanish. No production of the result is a unit production.
pub fn remove_unit_productions(g: &Grammar) -> (r: Grammar)
    ensures
        r.start@ == g.start@,
        forall|x: Seq<char>|
            str_set(r.non_terms@).contains(x) <==> str_set(g.non_terms@).contains(x),
        forall|x: Seq<char>| str_set(r.terms@).contains(x) <==> str_set(g.terms@).contains(x),
        forall|i: int|
            0 <= i < r.productions@.len() ==> !spec_is_unit_production(
                #[trigger] r.productions@[i],
            ),
{
    let unit_chains = detect_unit_productions(g);
    let mut new_productions: Vec<Production> = Vec::new();
    let mut pi: usize = 0;
    while pi < g.productions.len()
        invariant
            pi <= g.productions@.len(),
            forall|i: int|
                0 <= i < new_productions@.len() ==> !spec_is_unit_production(
                    #[trigger] new_productions@[i],
                ),
        decreases g.productions@.len() - pi,
    {
        let p = &g.productions[pi];
        if !is_unit_production(p) {
            extend_productions(&mut new_productions, p, &unit_chains);
        }
        pi += 1;
    }
    let start = g.start.clone();
    proof {
        assert(start@ == g.start@);
    }
    Grammar {
        non_terms: clone_strs(&g.non_terms),
        terms: clone_strs(&g.terms),
        productions: new_productions,
        start,
    }
}

/// `s` is a subsequence of `v`: its elements appear in `v` in order.
pub open spec fn is_subseq(s: Seq<usize>, v: Seq<usize>) -> bool
    decreases v.len(),
{
    if s.len() == 0 {
        true
    } else if v.len() == 0 {
        false
    } else {
        (s[0] == v[0] && is_subseq(s.drop_first(), v.drop_first())) || is_subseq(
            s,
            v.drop_first(),
        )
    }
}

/// Relies on itertools' combinations: it yields every choice of `k` of the
/// iterator's positions, in order, once per choice of positions — so every
/// yielded list is a length-`k` subsequence of the input, and every
/// length-`k` subsequence of the input is yielded.
#[verifier::external_body]
fn combinations_of(v: &Vec<usize>, k: usize) -> (r: Vec<Vec<usize>>)
    ensures
        forall|j: int|
            0 <= j < r@.len() ==> (#[trigger] r@[j])@.len() == k && is_subseq(r@[j]@, v@),
        forall|s: Seq<usize>|
            is_subseq(s, v@) && s.len() == k ==> exists|j: int|
                0 <= j < r@.len() && (#[trigger] r@[j])@ == s,
{
    v.iter().cloned().combinations(k).collect()
}

/// A name not spelled in the taken list: the base name followed by enough
/// primes to be longer than everything taken.
fn fresh_name(base: &String, taken: &Vec<String>) -> (r: String)
    ensures
        !str_set(taken@).contains(r@),
{
    let mut max_len: usize = 0;
    let mut i: usize = 0;
    while i < taken.len()
        invariant
            i <= taken@.len(),
            forall|k: int| 0 <= k < i ==> (#[trigger] taken@[k])@.len() <= max_len,
        decreases taken@.len() - i,
    {
        let l = taken[i].as_str().unicode_len();
        if l > max_len {
            max_len = l;
        }
        i += 1;
    }
    let mut r = base.clone();
    while r.as_str().unicode_len() <= max_len
        invariant
            r@.len() >= base@.len(),
        decreases max_len + 1 - r@.len(),
    {
        proof {
            reveal_strlit("'");
        }
        r.append("'");
    }
    proof {
        assert(r@.len() > max_len);
        if str_set(taken@).contains(r@) {
            let k = choose|k: int| 0 <= k < taken@.len() && (#[trigger] taken@[k])@ == r@;
            assert(taken@[k]@.len() <= max_len);
        }
    }
    r
}

/// Whether a production is an epsilon production, decided.
fn is_eps_prod(p: &Production) -> (r: bool)
    ensures
        r == is_eps_production(*p),
{
    if p.expression.len() != 1 {
        return false;
    }
    let eps = char_string_eps();
    p.expression[0].value.eq(&eps)
}

/// Drops the epsilon productions.
fn remove_epsilon_productions(prods: &Vec<Production>) -> (r: Vec<Production>)
    ensures
        prods_from(r@, prods@),
        forall|i: int| 0 <= i < r@.len() ==> !is_eps_production(#[trigger] r@[i]),
{
    let mut r: Vec<Production> = Vec::new();
    let mut pi: usize = 0;
    while pi < prods.len()
        invariant
            pi <= prods@.len(),
            prods_from(r@, prods@),
            forall|i: int| 0 <= i < r@.len() ==> !is_eps_production(#[trigger] r@[i]),
        decreases prods@.len() - pi,
    {
        let p = &prods[pi];
        if !is_eps_prod(p) {
            let ghost r0 = r@;
            let copied = clone_production(p);
            proof {
                assert(!is_eps_production(copied)) by {
                    if copied.expression@.len() == 1 {
                        assert(sym_like(copied.expression@[0], p.expression@[0]));
                    }
                }
            }
            r.push(copied);
            proof {
                assert forall|i: int|
                    0 <= i < r@.len() implies #[trigger] prod_in(r@[i], prods@) by {
                    if i < r0.len() {
                        assert(r@[i] == r0[i]);
                        assert(prod_in(r0[i], prods@));
                    } else {
                        assert(prod_like(r@[i], prods@[pi as int]));
                        assert(prod_in(r@[i], prods@));
                    }
                }
            }
        }
        pi += 1;
    }
    r
}

/// For every choice of nullable symbols of the production, pushes the
/// production with that choice deleted; a variant that would come out empty,
/// or as a bare epsilon, is left out. Everything pushed is a non-epsilon
/// production.
fn compensate_epsilon_deletion(
    new_productions: &mut Vec<Production>,
    prod: &Production,
    n_e: &Vec<String>,
)
    requires
        forall|i: int|
            0 <= i < old(new_productions)@.len() ==> !is_eps_production(
                #[trigger] old(new_productions)@[i],
            ),
    ensures
        forall|i: int|
            0 <= i < final(new_productions)@.len() ==> !is_eps_production(
                #[trigger] final(new_productions)@[i],
            ),
{
    let mut nullable_idxs: Vec<usize> = Vec::new();
    let mut k: usize = 0;
    while k < prod.expression.len()
        invariant
            k <= prod.expression@.len(),
            forall|z: int|
                0 <= z < nullable_idxs@.len() ==> (#[trigger] nullable_idxs@[z])
                    < prod.expression@.len(),
        decreases prod.expression@.len() - k,
    {
        if contains_str(n_e, &prod.expression[k].value) {
            nullable_idxs.push(k);
        }
        k += 1;
    }

    let mut del_count: usize = 0;
    loop
        invariant
            del_count <= nullable_idxs@.len(),
            forall|z: int|
                0 <= z < nullable_idxs@.len() ==> (#[trigger] nullable_idxs@[z])
                    < prod.expression@.len(),
            forall|i: int|
                0 <= i < new_productions@.len() ==> !is_eps_production(
                    #[trigger] new_productions@[i],
                ),
        ensures
            forall|i: int|
                0 <= i < new_productions@.len() ==> !is_eps_production(
                    #[trigger] new_productions@[i],
                ),
        decreases nullable_idxs@.len() - del_count,
    {
        let combs = combinations_of(&nullable_idxs, del_count);
        let mut ci: usize = 0;
        while ci < combs.len()
            invariant
                ci <= combs@.len(),
                forall|i: int|
                    0 <= i < new_productions@.len() ==> !is_eps_production(
                        #[trigger] new_productions@[i],
                    ),
            decreases combs@.len() - ci,
        {
            let comb = &combs[ci];
            let mut expression: Vec<Symbol> = Vec::new();
            let mut z: usize = 0;
            while z < prod.expression.len()
                invariant
                    z <= prod.expression@.len(),
                decreases prod.expression@.len() - z,
            {
                let mut deleted = false;
                let mut w: usize = 0;
                while w < comb.len()
                    invariant
                        w <= comb@.len(),
                    decreases comb@.len() - w,
                {
                    if comb[w] == z {
                        deleted = true;
                    }
                    w += 1;
                }
                if !deleted {
                    expression.push(clone_symbol(&prod.expression[z]));
                }
                z += 1;
            }
            if expression.len() > 0 {
                let variant = Production {
                    replaced_symbol: clone_symbol(&prod.replaced_symbol),
                    expression,
                };
                if !is_eps_prod(&variant) {
                    new_productions.push(variant);
                }
            }
            ci += 1;
        }
        if del_count == nullable_idxs.len() {
            break ;
        }
        del_count += 1;
    }
}

/// Removes epsilon productions: every remaining production is compensated by
/// variants with any choice of its nullable symbols deleted, and when the
/// start symbol is nullable a new start symbol derives the old one or the
/// empty string. The only epsilon production left, if any, belongs to the
/// (new) start symbol.
pub fn to_e_free(g: &Grammar) -> (r: Grammar)
    ensures
        forall|i: int|
            0 <= i < r.productions@.len() && is_eps_production(#[trigger] r.productions@[i])
                ==> r.productions@[i].replaced_symbol.value@ == r.start@,
        forall|x: Seq<char>| str_set(r.terms@).contains(x) <==> str_set(g.terms@).contains(x),
        !nullable_spelling(g.productions@, g.start@) ==> r.start@ == g.start@ && (forall|
            x: Seq<char>,
        |
            str_set(r.non_terms@).contains(x) <==> str_set(g.non_terms@).contains(x)),
        nullable_spelling(g.productions@, g.start@) ==> !str_set(g.non_terms@).contains(r.start@)
            && str_set(r.non_terms@).contains(r.start@) && r.productions@.len() >= 2 && (
        r.productions@[r.productions@.len() - 2]).replaced_symbol.value@ == r.start@ && (
        r.productions@[r.productions@.len() - 2]).expression@.len() == 1 && (
        r.productions@[r.productions@.len() - 2]).expression@[0].value@ == g.start@ && (
        r.productions@[r.productions@.len() - 1]).replaced_symbol.value@ == r.start@
            && is_eps_production(r.productions@[r.productions@.len() - 1]),
        str_set(g.non_terms@).contains(g.start@) ==> ((r.start@ != g.start@)
            <==> nullable_spelling(g.productions@, g.start@)),
{
    let n_e = get_nullable_non_terms(g);

    let without_eps = remove_epsilon_productions(&g.productions);

    let mut new_productions: Vec<Production> = Vec::new();
    let mut pi: usize = 0;
    while pi < without_eps.len()
        invariant
            pi <= without_eps@.len(),
            forall|i: int|
                0 <= i < new_productions@.len() ==> !is_eps_production(
                    #[trigger] new_productions@[i],
                ),
        decreases without_eps@.len() - pi,
    {
        compensate_epsilon_deletion(&mut new_productions, &without_eps[pi], &n_e);
        pi += 1;
    }

    let mut new_non_terms = clone_strs(&g.non_terms);
    let mut new_start = g.start.clone();
    proof {
        assert(new_start@ == g.start@);
    }

    let start_nullable = contains_str(&n_e, &g.start);
    proof {
        // the computed nullable set is the least closed set, so membership in
        // it coincides with membership in every closed set
        if start_nullable {
            assert forall|s: Set<Seq<char>>|
                s.contains(eps_spelling()) && #[trigger] closed_wrt(
                    g.productions@,
                    Set::<Seq<char>>::empty(),
                    s,
                ) implies s.contains(g.start@) by {
                assert(str_set(n_e@).subset_of(s));
            }
            assert(nullable_spelling(g.productions@, g.start@));
        } else {
            assert(!nullable_spelling(g.productions@, g.start@)) by {
                if nullable_spelling(g.productions@, g.start@) {
                    assert(str_set(n_e@).contains(eps_spelling()));
                    assert(closed_wrt(g.productions@, Set::<Seq<char>>::empty(), str_set(n_e@)));
                    assert(str_set(n_e@).contains(g.start@));
                }
            }
        }
    }
    if start_nullable {
        // the start symbol is nullable: a fresh start symbol derives the old
        // one or the empty string
        let fresh = fresh_name(&g.start, &new_non_terms);
        let ghost np0 = new_productions@;
        new_productions.push(
            Production {
                replaced_symbol: Symbol { kind: SymbolsKind::NONTERM, value: fresh.clone() },
                expression: vec![Symbol { kind: SymbolsKind::NONTERM, value: new_start }],
            },
        );
        let eps = char_string_eps();
        new_productions.push(
            Production {
                replaced_symbol: Symbol { kind: SymbolsKind::NONTERM, value: fresh.clone() },
                expression: vec![Symbol { kind: SymbolsKind::EPSILON, value: eps }],
            },
        );
        let ghost nt0 = new_non_terms@;
        new_non_terms.push(fresh.clone());
        new_start = fresh;
        proof {
            assert forall|i: int|
                0 <= i < new_productions@.len() && is_eps_production(
                    #[trigger] new_productions@[i],
                ) implies new_productions@[i].replaced_symbol.value@ == new_start@ by {
                if i < np0.len() {
                    assert(new_productions@[i] == np0[i]);
                }
            }
            assert(!str_set(g.non_terms@).contains(new_start@)) by {
                if str_set(g.non_terms@).contains(new_start@) {
                    let k = choose|k: int|
                        0 <= k < g.non_terms@.len() && (#[trigger] g.non_terms@[k])@
                            == new_start@;
                    assert(nt0[k]@ == new_start@);
                    assert(str_set(nt0).contains(new_start@));
                }
            }
            assert(str_set(new_non_terms@).contains(new_start@)) by {
                assert(new_non_terms@[new_non_terms@.len() - 1]@ == new_start@);
            }
            assert(new_productions@[new_productions@.len() - 2].expression@[0].value@
                == g.start@);
            assert(is_eps_production(new_productions@[new_productions@.len() - 1]));
        }
    }

    let terms = clone_strs(&g.terms);
    Grammar { non_terms: new_non_terms, terms, productions: new_productions, start: new_start }
}

/// Every symbol of every expression of the list is spelled inside the set.
pub open spec fn all_expr_syms_in(prods: Seq<Production>, s: Set<Seq<char>>) -> bool {
    forall|i: int| 0 <= i < prods.len() ==> rhs_in(#[trigger] prods[i], s)
}

/// Every production has the given head spelling and a nonempty expression.
pub open spec fn group_shaped(prods: Seq<Production>, key: Seq<char>) -> bool {
    forall|i: int|
        0 <= i < prods.len() ==> (#[trigger] prods[i]).replaced_symbol.value@ == key
            && prods[i].expression@.len() > 0
}

/// No production of the list starts with its own head symbol.
pub open spec fn no_immediate_lr(prods: Seq<Production>) -> bool {
    forall|i: int|
        0 <= i < prods.len() ==> (#[trigger] prods[i]).expression@.len() > 0
            ==> prods[i].expression@[0].value@ != prods[i].replaced_symbol.value@
}

/// Copies each production with the given non-terminal appended to its
/// expression.
fn get_content_extended_by_sym(prods: &Vec<Production>, symbol: &String) -> (r: Vec<Production>)
    ensures
        r@.len() == prods@.len(),
        forall|i: int|
            0 <= i < r@.len() ==> sym_like(
                (#[trigger] r@[i]).replaced_symbol,
                prods@[i].replaced_symbol,
            ) && r@[i].expression@.len() == prods@[i].expression@.len() + 1 && (forall|k: int|
                0 <= k < prods@[i].expression@.len() ==> sym_like(
                    #[trigger] r@[i].expression@[k],
                    prods@[i].expression@[k],
                )) && r@[i].expression@[r@[i].expression@.len() - 1].value@ == symbol@,
{
    let mut r: Vec<Production> = Vec::new();
    let mut i: usize = 0;
    while i < prods.len()
        invariant
            i <= prods@.len(),
            r@.len() == i,
            forall|w: int|
                0 <= w < i ==> sym_like(
                    (#[trigger] r@[w]).replaced_symbol,
                    prods@[w].replaced_symbol,
                ) && r@[w].expression@.len() == prods@[w].expression@.len() + 1 && (forall|k: int|
                    0 <= k < prods@[w].expression@.len() ==> sym_like(
                        #[trigger] r@[w].expression@[k],
                        prods@[w].expression@[k],
                    )) && r@[w].expression@[r@[w].expression@.len() - 1].value@ == symbol@,
        decreases prods@.len() - i,
    {
        let mut extension = clone_production(&prods[i]);
        extension.expression.push(Symbol { kind: SymbolsKind::NONTERM, value: symbol.clone() });
        r.push(extension);
        i += 1;
    }
    r
}

/// Prepends each expression of `l` to the expression of `r_prod`, keeping
/// `r_prod`'s head: the classic substitution step.
fn extend_from_front(l: &Vec<Production>, r_prod: &Production) -> (r: Vec<Production>)
    ensures
        r@.len() == l@.len(),
        forall|i: int|
            0 <= i < r@.len() ==> sym_like(
                (#[trigger] r@[i]).replaced_symbol,
                r_prod.replaced_symbol,
            ) && r@[i].expression@.len() == l@[i].expression@.len()
                + r_prod.expression@.len() && (forall|k: int|
                0 <= k < l@[i].expression@.len() ==> sym_like(
                    #[trigger] r@[i].expression@[k],
                    l@[i].expression@[k],
                )) && (forall|k: int|
                0 <= k < r_prod.expression@.len() ==> sym_like(
                    #[trigger] r@[i].expression@[l@[i].expression@.len() + k],
                    r_prod.expression@[k],
                )),
{
    let mut r: Vec<Production> = Vec::new();
    let mut i: usize = 0;
    while i < l.len()
        invariant
            i <= l@.len(),
            r@.len() == i,
            forall|w: int|
                0 <= w < i ==> sym_like(
                    (#[trigger] r@[w]).replaced_symbol,
                    r_prod.replaced_symbol,
                ) && r@[w].expression@.len() == l@[w].expression@.len()
                    + r_prod.expression@.len() && (forall|k: int|
                    0 <= k < l@[w].expression@.len() ==> sym_like(
                        #[trigger] r@[w].expression@[k],
                        l@[w].expression@[k],
                    )) && (forall|k: int|
                    0 <= k < r_prod.expression@.len() ==> sym_like(
                        #[trigger] r@[w].expression@[l@[w].expression@.len() + k],
                        r_prod.expression@[k],
                    )),
        decreases l@.len() - i,
    {
        let mut expression: Vec<Symbol> = Vec::new();
        let lp = &l[i];
        let mut k: usize = 0;
        while k < lp.expression.len()
            invariant
                lp == l@[i as int],
                i < l@.len(),
                k <= lp.expression@.len(),
                expression@.len() == k,
                forall|z: int|
                    0 <= z < k ==> sym_like(#[trigger] expression@[z], lp.expression@[z]),
            decreases lp.expression@.len() - k,
        {
            expression.push(clone_symbol(&lp.expression[k]));
            k += 1;
        }
        let mut k: usize = 0;
        while k < r_prod.expression.len()
            invariant
                lp == l@[i as int],
                i < l@.len(),
                k <= r_prod.expression@.len(),
                expression@.len() == lp.expression@.len() + k,
                forall|z: int|
                    0 <= z < lp.expression@.len() ==> sym_like(
                        #[trigger] expression@[z],
                        lp.expression@[z],
                    ),
                forall|z: int|
                    0 <= z < k ==> sym_like(
                        #[trigger] expression@[lp.expression@.len() + z],
                        r_prod.expression@[z],
                    ),
            decreases r_prod.expression@.len() - k,
        {
            expression.push(clone_symbol(&r_prod.expression[k]));
            k += 1;
        }
        r.push(Production { replaced_symbol: clone_symbol(&r_prod.replaced_symbol), expression });
        i += 1;
    }
    r
}

/// Removes immediate left recursion within one head's productions: the
/// left-recursive ones lose their leading head symbol and move to the fresh
/// substitute head `sub` (with and without a trailing `sub`), and the rest
/// are kept (with and without a trailing `sub`). A production that is the
/// bare head alone derives nothing new and is dropped. Yields the reworked
/// productions and, when any recursion was found, the substitute head's
/// productions.
fn eliminate_immediate_lr(a_prods: &Vec<Production>, key: &String, sub: &String) -> (r: (
    Vec<Production>,
    Option<Vec<Production>>,
))
    requires
        group_shaped(a_prods@, key@),
        forall|i: int, k: int|
            0 <= i < a_prods@.len() && 0 <= k < (#[trigger] a_prods@[i]).expression@.len() ==> (
            #[trigger] a_prods@[i].expression@[k]).value@ != sub@,
    ensures
        group_shaped(r.0@, key@),
        no_immediate_lr(r.0@),
        r.1 matches Some(subs) ==> group_shaped(subs@, sub@) && no_immediate_lr(subs@),
{
    // split off the left-recursive productions
    let mut recursive: Vec<Production> = Vec::new();
    let mut betas: Vec<Production> = Vec::new();
    let mut i: usize = 0;
    while i < a_prods.len()
        invariant
            i <= a_prods@.len(),
            group_shaped(a_prods@, key@),
            forall|w: int, k: int|
                0 <= w < a_prods@.len() && 0 <= k < (#[trigger] a_prods@[w]).expression@.len()
                    ==> (#[trigger] a_prods@[w].expression@[k]).value@ != sub@,
            group_shaped(betas@, key@),
            no_immediate_lr(betas@),
            group_shaped(recursive@, key@),
            forall|w: int|
                0 <= w < recursive@.len() ==> (#[trigger] recursive@[w]).expression@[0].value@
                    == key@,
            forall|w: int, k: int|
                0 <= w < recursive@.len() && 0 <= k < (
                #[trigger] recursive@[w]).expression@.len() ==> (
                #[trigger] recursive@[w].expression@[k]).value@ != sub@,
            forall|w: int, k: int|
                0 <= w < betas@.len() && 0 <= k < (#[trigger] betas@[w]).expression@.len() ==> (
                #[trigger] betas@[w].expression@[k]).value@ != sub@,
        decreases a_prods@.len() - i,
    {
        let p = &a_prods[i];
        let copied = clone_production(p);
        proof {
            assert(forall|k: int|
                0 <= k < copied.expression@.len() ==> (#[trigger] copied.expression@[k]).value@
                    == p.expression@[k].value@);
        }
        if p.expression[0].value.eq(&p.replaced_symbol.value) {
            recursive.push(copied);
        } else {
            betas.push(copied);
        }
        i += 1;
    }

    // alpha: a recursive production with its leading head symbol stripped; a
    // bare self-production strips to nothing and is dropped
    let mut alphas: Vec<Production> = Vec::new();
    let mut i: usize = 0;
    while i < recursive.len()
        invariant
            i <= recursive@.len(),
            group_shaped(recursive@, key@),
            forall|w: int, k: int|
                0 <= w < recursive@.len() && 0 <= k < (
                #[trigger] recursive@[w]).expression@.len() ==> (
                #[trigger] recursive@[w].expression@[k]).value@ != sub@,
            group_shaped(alphas@, sub@),
            no_immediate_lr(alphas@),
            forall|w: int, k: int|
                0 <= w < alphas@.len() && 0 <= k < (#[trigger] alphas@[w]).expression@.len() ==> (
                #[trigger] alphas@[w].expression@[k]).value@ != sub@,
        decreases recursive@.len() - i,
    {
        let p = &recursive[i];
        if p.expression.len() >= 2 {
            let mut expression: Vec<Symbol> = Vec::new();
            let mut k: usize = 1;
            while k < p.expression.len()
                invariant
                    p == recursive@[i as int],
                    i < recursive@.len(),
                    1 <= k <= p.expression@.len(),
                    expression@.len() == k - 1,
                    forall|z: int|
                        0 <= z < k - 1 ==> sym_like(
                            #[trigger] expression@[z],
                            p.expression@[z + 1],
                        ),
                decreases p.expression@.len() - k,
            {
                expression.push(clone_symbol(&p.expression[k]));
                k += 1;
            }
            alphas.push(
                Production {
                    replaced_symbol: Symbol { kind: SymbolsKind::NONTERM, value: sub.clone() },
                    expression,
                },
            );
        }
        i += 1;
    }

    if alphas.len() == 0 {
        // no recursion (or only bare self-productions): nothing to rework
        return (betas, None);
    }

    // A -> beta1 | beta2 | beta1 A' | beta2 A' ...
    let beta_ext = get_content_extended_by_sym(&betas, sub);
    let mut new_a: Vec<Production> = betas;
    let mut i: usize = 0;
    while i < beta_ext.len()
        invariant
            i <= beta_ext@.len(),
            group_shaped(new_a@, key@),
            no_immediate_lr(new_a@),
            forall|w: int|
                0 <= w < beta_ext@.len() ==> (#[trigger] beta_ext@[w]).replaced_symbol.value@
                    == key@ && beta_ext@[w].expression@.len() > 0
                    && beta_ext@[w].expression@[0].value@ != key@,
        decreases beta_ext@.len() - i,
    {
        let ghost n0 = new_a@;
        let copied = clone_production(&beta_ext[i]);
        proof {
            assert(copied.replaced_symbol.value@ == key@);
            assert(copied.expression@.len() > 0);
            assert(sym_like(copied.expression@[0], beta_ext@[i as int].expression@[0]));
        }
        new_a.push(copied);
        i += 1;
    }

    // A' -> alpha1 | alpha2 | alpha1 A' | alpha2 A' ...
    let alpha_ext = get_content_extended_by_sym(&alphas, sub);
    let mut subs: Vec<Production> = alphas;
    let mut i: usize = 0;
    while i < alpha_ext.len()
        invariant
            i <= alpha_ext@.len(),
            group_shaped(subs@, sub@),
            no_immediate_lr(subs@),
            forall|w: int|
                0 <= w < alpha_ext@.len() ==> (#[trigger] alpha_ext@[w]).replaced_symbol.value@
                    == sub@ && alpha_ext@[w].expression@.len() > 0
                    && alpha_ext@[w].expression@[0].value@ != sub@,
        decreases alpha_ext@.len() - i,
    {
        let copied = clone_production(&alpha_ext[i]);
        proof {
            assert(copied.replaced_symbol.value@ == sub@);
            assert(copied.expression@.len() > 0);
            assert(sym_like(copied.expression@[0], alpha_ext@[i as int].expression@[0]));
        }
        subs.push(copied);
        i += 1;
    }

    (new_a, Some(subs))
}

/// Groups the productions by their head, in the order of the non-terminals;
/// a production whose head is no listed non-terminal is left out.
fn map_productions_to_non_term(g: &Grammar) -> (r: Vec<(String, Vec<Production>)>)
    requires
        forall|i: int| 0 <= i < g.productions@.len() ==> (
        #[trigger] g.productions@[i]).expression@.len() > 0,
    ensures
        r@.len() == g.non_terms@.len(),
        forall|i: int|
            0 <= i < r@.len() ==> (#[trigger] r@[i]).0@ == g.non_terms@[i]@ && group_shaped(
                r@[i].1@,
                r@[i].0@,
            ),
{
    let mut r: Vec<(String, Vec<Production>)> = Vec::new();
    let mut ni: usize = 0;
    while ni < g.non_terms.len()
        invariant
            ni <= g.non_terms@.len(),
            r@.len() == ni,
            forall|i: int| 0 <= i < g.productions@.len() ==> (
            #[trigger] g.productions@[i]).expression@.len() > 0,
            forall|i: int|
                0 <= i < ni ==> (#[trigger] r@[i]).0@ == g.non_terms@[i]@ && group_shaped(
                    r@[i].1@,
                    r@[i].0@,
                ),
        decreases g.non_terms@.len() - ni,
    {
        let nt = &g.non_terms[ni];
        let mut group: Vec<Production> = Vec::new();
        let mut pi: usize = 0;
        while pi < g.productions.len()
            invariant
                pi <= g.productions@.len(),
                forall|i: int| 0 <= i < g.productions@.len() ==> (
                #[trigger] g.productions@[i]).expression@.len() > 0,
                group_shaped(group@, nt@),
            decreases g.productions@.len() - pi,
        {
            let p = &g.productions[pi];
            if p.replaced_symbol.value.eq(nt) {
                let copied = clone_production(p);
                proof {
                    assert(copied.replaced_symbol.value@ == nt@);
                    assert(copied.expression@.len() > 0);
                }
                group.push(copied);
            }
            pi += 1;
        }
        r.push((nt.clone(), group));
        ni += 1;
    }
    r
}

/// Eliminates left recursion, indirect recursion included: heads are ordered;
/// each head's productions first substitute away leading earlier heads, then
/// lose their immediate recursion through a fresh substitute head. No
/// production of the result starts with its own head symbol.
pub fn eliminate_indirect_lr(g: &Grammar) -> (r: Grammar)
    requires
        forall|i: int| 0 <= i < g.productions@.len() ==> (
        #[trigger] g.productions@[i]).expression@.len() > 0,
    ensures
        r.start@ == g.start@,
        no_immediate_lr(r.productions@),
        forall|x: Seq<char>| str_set(r.terms@).contains(x) <==> str_set(g.terms@).contains(x),
{
    let mut groups = map_productions_to_non_term(g);
    let norig = groups.len();
    let mut new_non_terms = clone_strs(&g.non_terms);

    let mut i: usize = 0;
    while i < norig
        invariant
            i <= norig,
            norig <= groups@.len(),
            forall|gi: int|
                0 <= gi < groups@.len() ==> group_shaped(
                    (#[trigger] groups@[gi]).1@,
                    groups@[gi].0@,
                ),
            forall|gi: int|
                (0 <= gi < i || norig <= gi < groups@.len()) ==> no_immediate_lr(
                    (#[trigger] groups@[gi]).1@,
                ),
        decreases norig - i,
    {
        let key_i = groups[i].0.clone();
        proof {
            assert(key_i@ == groups@[i as int].0@);
        }
        let mut ai = clone_prod_vec(&groups[i].1);
        proof {
            assert(group_shaped(ai@, key_i@));
        }

        // substitute away leading earlier heads
        let mut j: usize = 0;
        while j < i
            invariant
                j <= i,
                i < norig,
                norig <= groups@.len(),
                key_i@ == groups@[i as int].0@,
                group_shaped(ai@, key_i@),
                forall|gi: int|
                    0 <= gi < groups@.len() ==> group_shaped(
                        (#[trigger] groups@[gi]).1@,
                        groups@[gi].0@,
                    ),
                forall|gi: int|
                    (0 <= gi < i || norig <= gi < groups@.len()) ==> no_immediate_lr(
                        (#[trigger] groups@[gi]).1@,
                    ),
            decreases i - j,
        {
            let key_j = groups[j].0.clone();
            let mut rest: Vec<Production> = Vec::new();
            let mut pi: usize = 0;
            while pi < ai.len()
                invariant
                    pi <= ai@.len(),
                    j < i < norig <= groups@.len(),
                    key_i@ == groups@[i as int].0@,
                    group_shaped(ai@, key_i@),
                    group_shaped(rest@, key_i@),
                    group_shaped(groups@[j as int].1@, groups@[j as int].0@),
                decreases ai@.len() - pi,
            {
                let p = &ai[pi];
                if p.expression[0].value.eq(&key_j) {
                    // strip the leading earlier head and prepend that head's
                    // productions
                    let mut stripped_expr: Vec<Symbol> = Vec::new();
                    let mut k: usize = 1;
                    while k < p.expression.len()
                        invariant
                            p == ai@[pi as int],
                            pi < ai@.len(),
                            1 <= k <= p.expression@.len(),
                            stripped_expr@.len() == k - 1,
                        decreases p.expression@.len() - k,
                    {
                        stripped_expr.push(clone_symbol(&p.expression[k]));
                        k += 1;
                    }
                    let stripped = Production {
                        replaced_symbol: clone_symbol(&p.replaced_symbol),
                        expression: stripped_expr,
                    };
                    proof {
                        assert(stripped.replaced_symbol.value@ == key_i@);
                    }
                    let extension = extend_from_front(&groups[j].1, &stripped);
                    let mut w: usize = 0;
                    while w < extension.len()
                        invariant
                            w <= extension@.len(),
                            j < groups@.len(),
                            stripped.replaced_symbol.value@ == key_i@,
                            group_shaped(rest@, key_i@),
                            group_shaped(groups@[j as int].1@, groups@[j as int].0@),
                            extension@.len() == groups@[j as int].1@.len(),
                            forall|z: int|
                                0 <= z < extension@.len() ==> sym_like(
                                    (#[trigger] extension@[z]).replaced_symbol,
                                    stripped.replaced_symbol,
                                ) && extension@[z].expression@.len() == groups@[j as int].1@[
                                z].expression@.len() + stripped.expression@.len(),
                        decreases extension@.len() - w,
                    {
                        let copied = clone_production(&extension[w]);
                        proof {
                            assert(copied.replaced_symbol.value@ == key_i@);
                            assert(groups@[j as int].1@[w as int].expression@.len() > 0);
                            assert(copied.expression@.len() > 0);
                        }
                        rest.push(copied);
                        w += 1;
                    }
                } else {
                    let copied = clone_production(p);
                    proof {
                        assert(copied.replaced_symbol.value@ == key_i@);
                        assert(copied.expression@.len() > 0);
                    }
                    rest.push(copied);
                }
                pi += 1;
            }
            ai = rest;
            j += 1;
        }

        // a substitute head spelled unlike anything inside this group
        let mut local_syms: Vec<String> = Vec::new();
        local_syms.push(key_i.clone());
        let mut pi: usize = 0;
        while pi < ai.len()
            invariant
                pi <= ai@.len(),
                group_shaped(ai@, key_i@),
                forall|p: int, k: int|
                    0 <= p < pi && 0 <= k < (#[trigger] ai@[p]).expression@.len() ==> str_set(
                        local_syms@,
                    ).contains((#[trigger] ai@[p].expression@[k]).value@),
            decreases ai@.len() - pi,
        {
            let p = &ai[pi];
            let mut k: usize = 0;
            while k < p.expression.len()
                invariant
                    p == ai@[pi as int],
                    pi < ai@.len(),
                    k <= p.expression@.len(),
                    forall|pp: int, kk: int|
                        0 <= pp < pi && 0 <= kk < (#[trigger] ai@[pp]).expression@.len()
                            ==> str_set(local_syms@).contains(
                            (#[trigger] ai@[pp].expression@[kk]).value@,
                        ),
                    forall|kk: int|
                        0 <= kk < k ==> str_set(local_syms@).contains(
                            (#[trigger] p.expression@[kk]).value@,
                        ),
                decreases p.expression@.len() - k,
            {
                let ghost t0 = local_syms@;
                local_syms.push(p.expression[k].value.clone());
                proof {
                    assert(local_syms@[local_syms@.len() - 1]@
                        == p.expression@[k as int].value@);
                    assert forall|x: Seq<char>|
                        str_set(t0).contains(x) implies str_set(local_syms@).contains(x) by {
                        let z = choose|z: int| 0 <= z < t0.len() && (#[trigger] t0[z])@ == x;
                        assert(local_syms@[z]@ == x);
                    }
                    assert(str_set(local_syms@).contains(p.expression@[k as int].value@));
                }
                k += 1;
            }
            pi += 1;
        }
        let sub = fresh_name(&key_i, &local_syms);
        proof {
            assert forall|p: int, k: int|
                0 <= p < ai@.len() && 0 <= k < (#[trigger] ai@[p]).expression@.len() implies (
            #[trigger] ai@[p].expression@[k]).value@ != sub@ by {
                assert(str_set(local_syms@).contains(ai@[p].expression@[k].value@));
            }
        }

        let (new_ai, maybe_subs) = eliminate_immediate_lr(&ai, &key_i, &sub);
        let ghost gs0 = groups@;
        groups.set(i, (key_i, new_ai));
        proof {
            assert forall|gi: int|
                0 <= gi < groups@.len() implies group_shaped(
                (#[trigger] groups@[gi]).1@,
                groups@[gi].0@,
            ) by {
                if gi != i {
                    assert(groups@[gi] == gs0[gi]);
                }
            }
            assert forall|gi: int|
                (0 <= gi < i + 1 || norig <= gi < groups@.len()) implies no_immediate_lr(
                (#[trigger] groups@[gi]).1@,
            ) by {
                if gi != i {
                    assert(groups@[gi] == gs0[gi]);
                }
            }
        }
        match maybe_subs {
            Some(subs) => {
                let ghost gs1 = groups@;
                new_non_terms.push(sub.clone());
                groups.push((sub, subs));
                proof {
                    assert forall|gi: int|
                        0 <= gi < groups@.len() implies group_shaped(
                        (#[trigger] groups@[gi]).1@,
                        groups@[gi].0@,
                    ) by {
                        if gi < gs1.len() {
                            assert(groups@[gi] == gs1[gi]);
                        }
                    }
                    assert forall|gi: int|
                        (0 <= gi < i + 1 || norig <= gi < groups@.len()) implies no_immediate_lr(
                        (#[trigger] groups@[gi]).1@,
                    ) by {
                        if gi < gs1.len() {
                            assert(groups@[gi] == gs1[gi]);
                        }
                    }
                }
            },
            None => {},
        }
        i += 1;
    }

    // collect every group back into one production list
    let mut productions: Vec<Production> = Vec::new();
    let mut gi: usize = 0;
    while gi < groups.len()
        invariant
            gi <= groups@.len(),
            norig <= groups@.len(),
            norig <= i,
            i <= norig,
            forall|w: int|
                0 <= w < groups@.len() ==> group_shaped(
                    (#[trigger] groups@[w]).1@,
                    groups@[w].0@,
                ) && no_immediate_lr(groups@[w].1@),
            no_immediate_lr(productions@),
        decreases groups@.len() - gi,
    {
        let group = &groups[gi].1;
        let mut pi: usize = 0;
        while pi < group.len()
            invariant
                pi <= group@.len(),
                gi < groups@.len(),
                group@ == groups@[gi as int].1@,
                group_shaped(group@, groups@[gi as int].0@),
                no_immediate_lr(group@),
                no_immediate_lr(productions@),
            decreases group@.len() - pi,
        {
            let copied = clone_production(&group[pi]);
            proof {
                let src = group@[pi as int];
                assert(copied.expression@.len() == src.expression@.len());
                if copied.expression@.len() > 0 {
                    assert(sym_like(copied.expression@[0], src.expression@[0]));
                    assert(sym_like(copied.replaced_symbol, src.replaced_symbol));
                    assert(src.expression@[0].value@ != src.replaced_symbol.value@);
                }
            }
            productions.push(copied);
            pi += 1;
        }
        gi += 1;
    }

    let start = g.start.clone();
    proof {
        assert(start@ == g.start@);
    }
    Grammar { non_terms: new_non_terms, terms: clone_strs(&g.terms), productions, start }
}

/// Clones a list of productions, symbol for symbol.
fn clone_prod_vec(v: &Vec<Production>) -> (r: Vec<Production>)
    ensures
        r@.len() == v@.len(),
        forall|i: int| 0 <= i < v@.len() ==> prod_like(#[trigger] r@[i], v@[i]),
        forall|i: int|
            0 <= i < v@.len() ==> (#[trigger] r@[i]).replaced_symbol.value@
                == v@[i].replaced_symbol.value@ && r@[i].expression@.len()
                == v@[i].expression@.len(),
{
    let mut r: Vec<Production> = Vec::new();
    let mut i: usize = 0;
    while i < v.len()
        invariant
            i <= v@.len(),
            r@.len() == i,
            forall|w: int| 0 <= w < i ==> prod_like(#[trigger] r@[w], v@[w]),
            forall|w: int|
                0 <= w < i ==> (#[trigger] r@[w]).replaced_symbol.value@
                    == v@[w].replaced_symbol.value@ && r@[w].expression@.len()
                    == v@[w].expression@.len(),
        decreases v@.len() - i,
    {
        r.push(clone_production(&v[i]));
        i += 1;
    }
    r
}

} // verus!
