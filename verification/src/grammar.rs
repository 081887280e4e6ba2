//! Context-free grammars: symbols, productions, and grammars, with the
//! transformations that bring a grammar to a proper form.

pub mod parser;
pub mod transformations;

use vstd::prelude::*;

verus! {

/// The symbol standing for the empty string in productions.
pub const EPSILON_SYMBOL: char = '&';

/// What kind of symbol a grammar symbol is.
#[derive(Debug, Clone, Copy, PartialEq, Eq, Structural, Hash)]
pub enum SymbolsKind {
    TERM,
    NONTERM,
    EPSILON,
}

/// A grammar symbol: its kind and its spelling.
#[derive(Debug, Clone)]
pub struct Symbol {
    pub kind: SymbolsKind,
    pub value: String,
}

/// A production rule: the replaced (left-hand) symbol and the expression it
/// rewrites to. An expression holding exactly the epsilon symbol is an
/// epsilon production.
#[derive(Debug, Clone)]
pub struct Production {
    pub replaced_symbol: Symbol,
    pub expression: Vec<Symbol>,
}

/// A context-free grammar: non-terminals, terminals, productions, and the
/// start symbol. The symbol lists are kept free of duplicates by the
/// operations that build them.
#[derive(Debug)]
pub struct Grammar {
    pub non_terms: Vec<String>,
    pub terms: Vec<String>,
    pub productions: Vec<Production>,
    pub start: String,
}

/// The set of spellings a list of strings holds.
pub open spec fn str_set(v: Seq<String>) -> Set<Seq<char>> {
    Set::new(|x: Seq<char>| exists|i: int| 0 <= i < v.len() && (#[trigger] v[i])@ == x)
}

/// The spelling of the empty-string symbol.
pub open spec fn eps_spelling() -> Seq<char> {
    seq![EPSILON_SYMBOL]
}

/// The spellings of a production's expression.
pub open spec fn expr_spellings(p: Production) -> Seq<Seq<char>> {
    p.expression@.map_values(|s: Symbol| s.value@)
}

/// Whether a production is an epsilon production: its expression is exactly
/// the epsilon symbol.
pub open spec fn is_eps_production(p: Production) -> bool {
    p.expression@.len() == 1 && p.expression@[0].value@ == eps_spelling()
}

/// Whether a production is a unit production: its expression is exactly one
/// non-terminal.
pub open spec fn spec_is_unit_production(p: Production) -> bool {
    p.expression@.len() == 1 && p.expression@[0].kind == SymbolsKind::NONTERM
}

/// Builds the one-character string a symbol is spelled with. Relies on
/// String::from for a character: the resulting string holds exactly that
/// character.
#[verifier::external_body]
fn char_to_string(c: char) -> (r: String)
    ensures
        r@ == seq![c],
{
    String::from(c)
}

impl Grammar {
    /// A grammar from its parts.
    pub fn new(
        non_terms: Vec<String>,
        terms: Vec<String>,
        prods: Vec<Production>,
        start: String,
    ) -> (g: Grammar)
        ensures
            g.non_terms == non_terms,
            g.terms == terms,
            g.productions == prods,
            g.start == start,
    {
        Grammar { non_terms, terms, productions: prods, start }
    }

    /// A grammar from single-character symbols.
    pub fn new_from_chars(
        non_terms: Vec<char>,
        terms: Vec<char>,
        prods: Vec<Production>,
        start: char,
    ) -> (g: Grammar)
        ensures
            g.non_terms@.len() == non_terms@.len(),
            forall|i: int|
                0 <= i < non_terms@.len() ==> (#[trigger] g.non_terms@[i])@ == seq![non_terms@[i]],
            g.terms@.len() == terms@.len(),
            forall|i: int|
                0 <= i < terms@.len() ==> (#[trigger] g.terms@[i])@ == seq![terms@[i]],
            g.productions == prods,
            g.start@ == seq![start],
    {
        let mut nts: Vec<String> = Vec::new();
        let mut i: usize = 0;
        while i < non_terms.len()
            invariant
                i <= non_terms@.len(),
                nts@.len() == i,
                forall|k: int|
                    0 <= k < i ==> (#[trigger] nts@[k])@ == seq![non_terms@[k]],
            decreases non_terms@.len() - i,
        {
            nts.push(char_to_string(non_terms[i]));
            i += 1;
        }
        let mut ts: Vec<String> = Vec::new();
        let mut i: usize = 0;
        while i < terms.len()
            invariant
                i <= terms@.len(),
                ts@.len() == i,
                forall|k: int| 0 <= k < i ==> (#[trigger] ts@[k])@ == seq![terms@[k]],
            decreases terms@.len() - i,
        {
            ts.push(char_to_string(terms[i]));
            i += 1;
        }
        Grammar { non_terms: nts, terms: ts, productions: prods, start: char_to_string(start) }
    }
}

impl Production {
    /// A production from a list of kind-and-spelling pairs: the first is the
    /// replaced symbol, the rest are the expression.
    pub fn new(symbols: Vec<(SymbolsKind, String)>) -> (p: Production)
        requires
            symbols@.len() >= 1,
        ensures
            p.replaced_symbol.kind == symbols@[0].0,
            p.replaced_symbol.value == symbols@[0].1,
            p.expression@.len() == symbols@.len() - 1,
            forall|i: int|
                0 <= i < p.expression@.len() ==> (#[trigger] p.expression@[i]).kind == symbols@[i
                    + 1].0 && p.expression@[i].value == symbols@[i + 1].1,
    {
        let mut expression: Vec<Symbol> = Vec::new();
        let mut i: usize = 1;
        while i < symbols.len()
            invariant
                symbols@.len() >= 1,
                1 <= i <= symbols@.len(),
                expression@.len() == i - 1,
                forall|k: int|
                    0 <= k < i - 1 ==> (#[trigger] expression@[k]).kind == symbols@[k + 1].0
                        && expression@[k].value == symbols@[k + 1].1,
            decreases symbols@.len() - i,
        {
            let (kind, value) = (symbols[i].0, symbols[i].1.clone());
            proof {
                assert(value@ == symbols@[i as int].1@);
            }
            expression.push(Symbol { kind, value });
            i += 1;
        }
        let first = Symbol { kind: symbols[0].0, value: symbols[0].1.clone() };
        Production { replaced_symbol: first, expression }
    }

    /// A production from kind-and-character pairs.
    pub fn new_from_chars(symbols: Vec<(SymbolsKind, char)>) -> (p: Production)
        requires
            symbols@.len() >= 1,
        ensures
            p.replaced_symbol.kind == symbols@[0].0,
            p.replaced_symbol.value@ == seq![symbols@[0].1],
            p.expression@.len() == symbols@.len() - 1,
            forall|i: int|
                0 <= i < p.expression@.len() ==> (#[trigger] p.expression@[i]).kind == symbols@[i
                    + 1].0 && p.expression@[i].value@ == seq![symbols@[i + 1].1],
    {
        let mut expression: Vec<Symbol> = Vec::new();
        let mut i: usize = 1;
        while i < symbols.len()
            invariant
                symbols@.len() >= 1,
                1 <= i <= symbols@.len(),
                expression@.len() == i - 1,
                forall|k: int|
                    0 <= k < i - 1 ==> (#[trigger] expression@[k]).kind == symbols@[k + 1].0
                        && expression@[k].value@ == seq![symbols@[k + 1].1],
            decreases symbols@.len() - i,
        {
            expression.push(Symbol { kind: symbols[i].0, value: char_to_string(symbols[i].1) });
            i += 1;
        }
        let first = Symbol { kind: symbols[0].0, value: char_to_string(symbols[0].1) };
        Production { replaced_symbol: first, expression }
    }
}

} // verus!
