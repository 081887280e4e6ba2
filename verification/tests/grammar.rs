//! Tests of the grammar transformations: productive and nullable symbol
//! computation, and removal of useless and unreachable symbols.

use regex2fsm::grammar::parser::{
    convert_string_to_symbol, parse, parse_count, parse_start, ParseError,
};
use regex2fsm::grammar::transformations::{
    eliminate_indirect_lr, get_nullable_non_terms, get_productive, is_unit_production,
    remove_unit_productions, remove_unreachable, remove_useless_symbols, to_e_free,
};
use regex2fsm::grammar::{Grammar, Production, SymbolsKind};

fn strs(v: &[&str]) -> Vec<String> {
    v.iter().map(|s| s.to_string()).collect()
}

fn prod(symbols: &[(SymbolsKind, &str)]) -> Production {
    Production::new(symbols.iter().map(|(k, v)| (*k, v.to_string())).collect())
}

fn has(v: &[String], s: &str) -> bool {
    v.iter().any(|x| x == s)
}

fn token_lines(rows: &[&[&str]]) -> Vec<Vec<String>> {
    rows.iter().map(|r| r.iter().map(|s| s.to_string()).collect()).collect()
}

#[test]
fn grammar_description_parses() {
    // two non-terminals, one terminal, two productions, start S
    let lines = token_lines(&[
        &["2"],
        &["S", "A"],
        &["1"],
        &["a"],
        &["2"],
        &["S", "A", "a"],
        &["A", "a"],
        &["S"],
    ]);
    let g = parse(&lines).unwrap();
    assert_eq!(g.start, "S");
    assert!(g.non_terms.contains(&"S".to_string()));
    assert!(g.non_terms.contains(&"A".to_string()));
    assert_eq!(g.terms, strs(&["a"]));
    assert_eq!(g.productions.len(), 2);
    assert_eq!(g.productions[0].replaced_symbol.value, "S");
    assert_eq!(g.productions[0].expression[0].value, "A");
    assert_eq!(g.productions[0].expression[0].kind, SymbolsKind::NONTERM);
    assert_eq!(g.productions[0].expression[1].kind, SymbolsKind::TERM);
}

#[test]
fn grammar_description_errors() {
    // a count that is no number
    let lines = token_lines(&[&["x"], &["S"], &["0"], &[], &["0"], &["S"]]);
    assert_eq!(parse(&lines).unwrap_err(), ParseError::InvalidCount);
    // a count that does not match the symbols
    let lines = token_lines(&[&["2"], &["S"], &["0"], &[], &["0"], &["S"]]);
    assert_eq!(parse(&lines).unwrap_err(), ParseError::NonTermsNotFound);
    // a start symbol that is no non-terminal
    let lines = token_lines(&[&["1"], &["S"], &["1"], &["a"], &["0"], &["a"]]);
    assert_eq!(parse(&lines).unwrap_err(), ParseError::InvalidStartSymbol);
    // a production holding an undeclared symbol
    let lines = token_lines(&[&["1"], &["S"], &["1"], &["a"], &["1"], &["S", "b"], &["S"]]);
    assert_eq!(parse(&lines).unwrap_err(), ParseError::FailedConvertIntoSymbol);
    // a production with no expression
    let lines = token_lines(&[&["1"], &["S"], &["1"], &["a"], &["1"], &["S"], &["S"]]);
    assert_eq!(parse(&lines).unwrap_err(), ParseError::InvalidProduction);
    // a production headed by a terminal
    let lines = token_lines(&[&["1"], &["S"], &["1"], &["a"], &["1"], &["a", "a"], &["S"]]);
    assert_eq!(parse(&lines).unwrap_err(), ParseError::InvalidProductionStart);
    // a missing start line
    let lines = token_lines(&[&["1"], &["S"], &["1"], &["a"], &["0"]]);
    assert_eq!(parse(&lines).unwrap_err(), ParseError::StartSymbolNotFound);
}

#[test]
fn token_classification() {
    let nts = strs(&["S"]);
    let ts = strs(&["a"]);
    let eps = convert_string_to_symbol(&"&".to_string(), &nts, &ts).unwrap();
    assert_eq!(eps.kind, SymbolsKind::EPSILON);
    let nt = convert_string_to_symbol(&"S".to_string(), &nts, &ts).unwrap();
    assert_eq!(nt.kind, SymbolsKind::NONTERM);
    let t = convert_string_to_symbol(&"a".to_string(), &nts, &ts).unwrap();
    assert_eq!(t.kind, SymbolsKind::TERM);
    assert!(convert_string_to_symbol(&"z".to_string(), &nts, &ts).is_err());
    assert_eq!(parse_count(&"42".to_string()), Ok(42));
    assert!(parse_count(&"".to_string()).is_err());
    assert!(parse_count(&"4x".to_string()).is_err());
    assert_eq!(parse_start(&"S".to_string(), &nts).unwrap(), "S");
    assert!(parse_start(&"a".to_string(), &nts).is_err());
}

#[test]
fn production_new_splits_head_and_expression() {
    let p = prod(&[
        (SymbolsKind::NONTERM, "S"),
        (SymbolsKind::TERM, "a"),
        (SymbolsKind::NONTERM, "B"),
    ]);
    assert_eq!(p.replaced_symbol.value, "S");
    assert_eq!(p.replaced_symbol.kind, SymbolsKind::NONTERM);
    assert_eq!(p.expression.len(), 2);
    assert_eq!(p.expression[0].value, "a");
    assert_eq!(p.expression[1].value, "B");
}

#[test]
fn production_new_from_chars_spells_single_characters() {
    let p = Production::new_from_chars(vec![
        (SymbolsKind::NONTERM, 'S'),
        (SymbolsKind::TERM, 'a'),
    ]);
    assert_eq!(p.replaced_symbol.value, "S");
    assert_eq!(p.expression.len(), 1);
    assert_eq!(p.expression[0].value, "a");
}

#[test]
fn grammar_constructors_keep_their_parts() {
    let g = Grammar::new(
        strs(&["S"]),
        strs(&["a"]),
        vec![prod(&[(SymbolsKind::NONTERM, "S"), (SymbolsKind::TERM, "a")])],
        "S".to_string(),
    );
    assert_eq!(g.non_terms, strs(&["S"]));
    assert_eq!(g.terms, strs(&["a"]));
    assert_eq!(g.start, "S");
    assert_eq!(g.productions.len(), 1);

    let gc = Grammar::new_from_chars(vec!['S', 'B'], vec!['a'], vec![], 'S');
    assert_eq!(gc.non_terms, strs(&["S", "B"]));
    assert_eq!(gc.terms, strs(&["a"]));
    assert_eq!(gc.start, "S");
}

#[test]
fn productive_symbols_grow_from_terminals() {
    // S -> A a, A -> a, B -> B b: S and A are productive, B is not
    let g = Grammar::new(
        strs(&["S", "A", "B"]),
        strs(&["a", "b"]),
        vec![
            prod(&[
                (SymbolsKind::NONTERM, "S"),
                (SymbolsKind::NONTERM, "A"),
                (SymbolsKind::TERM, "a"),
            ]),
            prod(&[(SymbolsKind::NONTERM, "A"), (SymbolsKind::TERM, "a")]),
            prod(&[
                (SymbolsKind::NONTERM, "B"),
                (SymbolsKind::NONTERM, "B"),
                (SymbolsKind::TERM, "b"),
            ]),
        ],
        "S".to_string(),
    );
    let productive = get_productive(&g);
    assert!(has(&productive, "&"));
    assert!(has(&productive, "A"));
    assert!(has(&productive, "S"));
    assert!(!has(&productive, "B"));
}

#[test]
fn nullable_symbols_grow_from_epsilon() {
    // A -> &, S -> A A, B -> a: S and A are nullable, B is not
    let g = Grammar::new(
        strs(&["S", "A", "B"]),
        strs(&["a"]),
        vec![
            prod(&[(SymbolsKind::NONTERM, "A"), (SymbolsKind::EPSILON, "&")]),
            prod(&[
                (SymbolsKind::NONTERM, "S"),
                (SymbolsKind::NONTERM, "A"),
                (SymbolsKind::NONTERM, "A"),
            ]),
            prod(&[(SymbolsKind::NONTERM, "B"), (SymbolsKind::TERM, "a")]),
        ],
        "S".to_string(),
    );
    let nullable = get_nullable_non_terms(&g);
    assert!(has(&nullable, "&"));
    assert!(has(&nullable, "A"));
    assert!(has(&nullable, "S"));
    assert!(!has(&nullable, "B"));
}

#[test]
fn unreachable_symbols_are_dropped() {
    // S -> a, B -> b: B is unreachable from S
    let g = Grammar::new(
        strs(&["S", "B"]),
        strs(&["a", "b"]),
        vec![
            prod(&[(SymbolsKind::NONTERM, "S"), (SymbolsKind::TERM, "a")]),
            prod(&[(SymbolsKind::NONTERM, "B"), (SymbolsKind::TERM, "b")]),
        ],
        "S".to_string(),
    );
    let r = remove_unreachable(&g);
    assert_eq!(r.start, "S");
    assert!(has(&r.non_terms, "S"));
    assert!(!has(&r.non_terms, "B"));
    assert!(has(&r.terms, "a"));
    assert!(!has(&r.terms, "b"));
    assert_eq!(r.productions.len(), 1);
    assert_eq!(r.productions[0].replaced_symbol.value, "S");
}

#[test]
fn unit_productions_are_rehomed() {
    // S -> A, A -> a | b c: the unit production vanishes, A's expressions
    // re-home to S
    let g = Grammar::new(
        strs(&["S", "A"]),
        strs(&["a", "b", "c"]),
        vec![
            prod(&[(SymbolsKind::NONTERM, "S"), (SymbolsKind::NONTERM, "A")]),
            prod(&[(SymbolsKind::NONTERM, "A"), (SymbolsKind::TERM, "a")]),
            prod(&[
                (SymbolsKind::NONTERM, "A"),
                (SymbolsKind::TERM, "b"),
                (SymbolsKind::TERM, "c"),
            ]),
        ],
        "S".to_string(),
    );
    assert!(is_unit_production(&g.productions[0]));
    assert!(!is_unit_production(&g.productions[1]));
    let r = remove_unit_productions(&g);
    assert!(r.productions.iter().all(|p| !is_unit_production(p)));
    assert_eq!(r.productions.len(), 2);
    assert!(r.productions.iter().all(|p| p.replaced_symbol.value == "S"));
}

#[test]
fn epsilon_removal_compensates_nullable_symbols() {
    // S -> A b, A -> &: deleting the nullable A yields S -> b as well
    let g = Grammar::new(
        strs(&["S", "A"]),
        strs(&["b"]),
        vec![
            prod(&[
                (SymbolsKind::NONTERM, "S"),
                (SymbolsKind::NONTERM, "A"),
                (SymbolsKind::TERM, "b"),
            ]),
            prod(&[(SymbolsKind::NONTERM, "A"), (SymbolsKind::EPSILON, "&")]),
        ],
        "S".to_string(),
    );
    let r = to_e_free(&g);
    assert_eq!(r.start, "S");
    assert_eq!(r.productions.len(), 2);
    let exprs: Vec<Vec<String>> = r
        .productions
        .iter()
        .map(|p| p.expression.iter().map(|s| s.value.clone()).collect())
        .collect();
    assert!(exprs.contains(&strs(&["A", "b"])));
    assert!(exprs.contains(&strs(&["b"])));
}

#[test]
fn epsilon_removal_renames_a_nullable_start() {
    // S -> A, A -> &: the start symbol is nullable, so a fresh start derives
    // the old one or the empty string
    let g = Grammar::new(
        strs(&["S", "A"]),
        strs(&[]),
        vec![
            prod(&[(SymbolsKind::NONTERM, "S"), (SymbolsKind::NONTERM, "A")]),
            prod(&[(SymbolsKind::NONTERM, "A"), (SymbolsKind::EPSILON, "&")]),
        ],
        "S".to_string(),
    );
    let r = to_e_free(&g);
    assert_ne!(r.start, "S");
    assert!(r.non_terms.contains(&r.start));
    // the only epsilon production belongs to the new start
    for p in &r.productions {
        if p.expression.len() == 1 && p.expression[0].value == "&" {
            assert_eq!(p.replaced_symbol.value, r.start);
        }
    }
    assert!(r
        .productions
        .iter()
        .any(|p| p.replaced_symbol.value == r.start && p.expression.len() == 1
            && p.expression[0].value == "S"));
}

#[test]
fn left_recursion_is_eliminated() {
    // A -> A a | b: the classic rewrite, A -> b | b A', A' -> a | a A'
    let g = Grammar::new(
        strs(&["A"]),
        strs(&["a", "b"]),
        vec![
            prod(&[
                (SymbolsKind::NONTERM, "A"),
                (SymbolsKind::NONTERM, "A"),
                (SymbolsKind::TERM, "a"),
            ]),
            prod(&[(SymbolsKind::NONTERM, "A"), (SymbolsKind::TERM, "b")]),
        ],
        "A".to_string(),
    );
    let r = eliminate_indirect_lr(&g);
    assert_eq!(r.start, "A");
    assert_eq!(r.productions.len(), 4);
    for p in &r.productions {
        assert!(!p.expression.is_empty());
        assert_ne!(p.expression[0].value, p.replaced_symbol.value);
    }
    assert_eq!(r.non_terms.len(), 2);
    let sub = &r.non_terms[1];
    assert!(r.productions.iter().any(|p| &p.replaced_symbol.value == sub));
}

#[test]
fn useless_symbols_are_dropped() {
    // S -> a | A b, A -> A b (A is not productive), C -> a (C unreachable)
    let g = Grammar::new(
        strs(&["S", "A", "C"]),
        strs(&["a", "b"]),
        vec![
            prod(&[(SymbolsKind::NONTERM, "S"), (SymbolsKind::TERM, "a")]),
            prod(&[
                (SymbolsKind::NONTERM, "S"),
                (SymbolsKind::NONTERM, "A"),
                (SymbolsKind::TERM, "b"),
            ]),
            prod(&[
                (SymbolsKind::NONTERM, "A"),
                (SymbolsKind::NONTERM, "A"),
                (SymbolsKind::TERM, "b"),
            ]),
            prod(&[(SymbolsKind::NONTERM, "C"), (SymbolsKind::TERM, "a")]),
        ],
        "S".to_string(),
    );
    let r = remove_useless_symbols(&g);
    assert_eq!(r.start, "S");
    assert!(has(&r.non_terms, "S"));
    assert!(!has(&r.non_terms, "A"));
    assert!(!has(&r.non_terms, "C"));
    assert_eq!(r.productions.len(), 1);
    assert_eq!(r.productions[0].expression.len(), 1);
    assert_eq!(r.productions[0].expression[0].value, "a");
}
