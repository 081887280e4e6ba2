//! End-to-end tests of the regex-to-minimal-DFA pipeline: parsing,
//! preprocessing, DFA construction, and minimization, held against a
//! reference interpretation of the syntax tree by exhaustive string
//! enumeration up to a bounded length.

use std::collections::HashSet;

use regex2fsm::fsm::dfa::transform;
use regex2fsm::fsm::dfa_minimization::minimize;
use regex2fsm::fsm::Dfa;
use regex2fsm::syntax_tree::parser::parse;
use regex2fsm::syntax_tree::utils::{extend_concat_op, validate_regex};
use regex2fsm::syntax_tree::{GrammarType, Operations, SyntaxError, SyntaxTree};

fn chars(s: &str) -> Vec<char> {
    s.chars().collect()
}

fn string_of(v: &[char]) -> String {
    v.iter().collect()
}

/// The language of the syntax tree (terminator treated as the empty string),
/// cut off above `maxlen` characters.
fn lang_upto(t: &SyntaxTree, maxlen: usize) -> HashSet<String> {
    let mut out = HashSet::new();
    match &t.entry {
        GrammarType::CHAR(c) => {
            out.insert(c.to_string());
        }
        GrammarType::OPERATION(Operations::TERMINATOR) => {
            out.insert(String::new());
        }
        GrammarType::OPERATION(Operations::OR) => {
            let l = lang_upto(t.left.as_ref().unwrap(), maxlen);
            let r = lang_upto(t.right.as_ref().unwrap(), maxlen);
            out.extend(l);
            out.extend(r);
        }
        GrammarType::OPERATION(Operations::CONCAT) => {
            let l = lang_upto(t.left.as_ref().unwrap(), maxlen);
            let r = lang_upto(t.right.as_ref().unwrap(), maxlen);
            for a in &l {
                for b in &r {
                    if a.len() + b.len() <= maxlen {
                        out.insert(format!("{}{}", a, b));
                    }
                }
            }
        }
        GrammarType::OPERATION(Operations::REPETITION) => {
            let base = lang_upto(t.left.as_ref().unwrap(), maxlen);
            out.insert(String::new());
            loop {
                let mut grew = false;
                let current: Vec<String> = out.iter().cloned().collect();
                for a in &current {
                    for b in &base {
                        let joined = format!("{}{}", a, b);
                        if joined.len() <= maxlen && !out.contains(&joined) {
                            out.insert(joined);
                            grew = true;
                        }
                    }
                }
                if !grew {
                    break;
                }
            }
        }
        _ => panic!("operator without operands in a parsed tree"),
    }
    out
}

/// Runs a DFA on a string: missing transitions reject.
fn run_dfa(d: &Dfa, s: &str) -> bool {
    if d.states.is_empty() {
        return false;
    }
    let mut state = 0usize;
    for ch in s.chars() {
        let col = match d.alphabet.iter().position(|&a| a == ch) {
            Some(c) => c,
            None => return false,
        };
        match d.trans[state][col] {
            Some(next) => state = next,
            None => return false,
        }
    }
    d.is_terminal[state]
}

/// All strings over the alphabet up to the given length.
fn all_strings(alphabet: &[char], maxlen: usize) -> Vec<String> {
    let mut out = vec![String::new()];
    let mut layer = vec![String::new()];
    for _ in 0..maxlen {
        let mut next = Vec::new();
        for s in &layer {
            for &c in alphabet {
                let mut t = s.clone();
                t.push(c);
                next.push(t.clone());
                out.push(t);
            }
        }
        layer = next;
    }
    out
}

fn pipeline(pattern: &str) -> (Box<SyntaxTree>, Dfa, Dfa) {
    let tree = parse(&chars(pattern)).expect("pattern should parse");
    let reference = parse(&chars(pattern)).expect("pattern should parse");
    let dfa = transform(tree);
    let min = minimize(&dfa);
    (reference, dfa, min)
}

fn check_language(pattern: &str, alphabet: &[char], maxlen: usize) {
    let (tree, dfa, min) = pipeline(pattern);
    let lang = lang_upto(&tree, maxlen);
    for s in all_strings(alphabet, maxlen) {
        let expected = lang.contains(&s);
        assert_eq!(
            run_dfa(&dfa, &s),
            expected,
            "pattern {:?} on input {:?} (unminimized)",
            pattern,
            s
        );
        assert_eq!(
            run_dfa(&min, &s),
            expected,
            "pattern {:?} on input {:?} (minimized)",
            pattern,
            s
        );
    }
}

#[test]
fn language_of_union() {
    check_language("a|b", &['a', 'b'], 4);
}

#[test]
fn language_of_classic_dragon_pattern() {
    check_language("(a|b)*abb", &['a', 'b'], 6);
}

#[test]
fn language_of_two_stars() {
    check_language("a*b*", &['a', 'b'], 5);
}

#[test]
fn language_of_escaped_concat_marker() {
    check_language("a\\.(b|c)*", &['a', 'b', 'c', '.'], 4);
}

#[test]
fn language_of_escaped_brackets() {
    check_language("\\(a\\)*", &['a', '(', ')'], 5);
}

#[test]
fn language_of_single_char() {
    check_language("a", &['a'], 3);
}

#[test]
fn language_of_nested_star() {
    check_language("(ab)*", &['a', 'b'], 6);
}

#[test]
fn minimization_is_idempotent_on_corpus() {
    for pattern in ["a|b", "(a|b)*abb", "a*b*", "ab", "a*", "(ab|a)*b"] {
        let (_, _, min) = pipeline(pattern);
        let again = minimize(&min);
        assert_eq!(
            min.states.len(),
            again.states.len(),
            "pattern {:?}: minimizing a minimal automaton changed the state count",
            pattern
        );
        for s in all_strings(&['a', 'b'], 5) {
            assert_eq!(run_dfa(&min, &s), run_dfa(&again, &s), "pattern {:?}", pattern);
        }
    }
}

#[test]
fn minimized_union_merges_both_letters() {
    // a|b: the start state steps on either letter to one accepting state,
    // which has no outgoing transition
    let (_, _, min) = pipeline("a|b");
    assert_eq!(min.alphabet, vec!['a', 'b']);
    assert_eq!(min.states.len(), 2);
    assert_eq!(min.trans[0][0], Some(1));
    assert_eq!(min.trans[0][1], Some(1));
    assert!(!min.is_terminal[0]);
    assert!(min.is_terminal[1]);
    assert_eq!(min.trans[1][0], None);
    assert_eq!(min.trans[1][1], None);
}

#[test]
fn minimized_star_is_one_self_looping_state() {
    // a*: a single state, both start and accepting, self-looping on a
    let (_, _, min) = pipeline("a*");
    assert_eq!(min.alphabet, vec!['a']);
    assert_eq!(min.states.len(), 1);
    assert!(min.is_terminal[0]);
    assert_eq!(min.trans[0][0], Some(0));
}

#[test]
fn minimized_concat_is_a_chain() {
    // ab: a three-state chain, only the last state accepting, nothing out of
    // it
    let (_, _, min) = pipeline("ab");
    assert_eq!(min.alphabet, vec!['a', 'b']);
    assert_eq!(min.states.len(), 3);
    assert!(!min.is_terminal[0]);
    assert!(!min.is_terminal[1]);
    assert!(min.is_terminal[2]);
    assert_eq!(min.trans[0][0], Some(1));
    assert_eq!(min.trans[0][1], None);
    assert_eq!(min.trans[1][1], Some(2));
    assert_eq!(min.trans[1][0], None);
    assert_eq!(min.trans[2][0], None);
    assert_eq!(min.trans[2][1], None);
}

#[test]
fn determinism_of_transition_tables() {
    // each state holds exactly one entry per symbol, before and after
    // minimization
    for pattern in ["a|b", "(a|b)*abb", "a*b*", "ab"] {
        let (_, dfa, min) = pipeline(pattern);
        for d in [&dfa, &min] {
            assert_eq!(d.trans.len(), d.states.len());
            for row in &d.trans {
                assert_eq!(row.len(), d.alphabet.len());
            }
        }
    }
}

#[test]
fn minimized_states_are_reachable() {
    // walking from the start state covers every state of the minimized
    // output
    for pattern in ["a|b", "(a|b)*abb", "a*b*", "a*", "ab", "(ab|a)*b"] {
        let (_, _, min) = pipeline(pattern);
        let mut seen = vec![false; min.states.len()];
        if !min.states.is_empty() {
            seen[0] = true;
            let mut stack = vec![0usize];
            while let Some(u) = stack.pop() {
                for entry in &min.trans[u] {
                    if let Some(v) = entry {
                        if !seen[*v] {
                            seen[*v] = true;
                            stack.push(*v);
                        }
                    }
                }
            }
        }
        assert!(
            seen.iter().all(|&b| b),
            "pattern {:?}: an unreachable state survived minimization",
            pattern
        );
    }
}

#[test]
fn preprocessing_appends_terminator_and_concat_markers() {
    // the output is the input with explicit concat markers inserted and the
    // terminator appended: nothing is removed or reordered
    assert_eq!(string_of(&extend_concat_op(&chars("ab"))), "a.b.#");
    assert_eq!(string_of(&extend_concat_op(&chars("a|b"))), "a|b.#");
    assert_eq!(string_of(&extend_concat_op(&chars("a*"))), "a*.#");
    assert_eq!(string_of(&extend_concat_op(&chars("a*b"))), "a*.b.#");
    assert_eq!(string_of(&extend_concat_op(&chars("(a)b"))), "(a).b.#");
    assert_eq!(string_of(&extend_concat_op(&chars("\\(a\\)*"))), "\\(.a.\\)*.#");
    assert_eq!(string_of(&extend_concat_op(&chars(""))), "#");
}

#[test]
fn validation_rejects_reserved_characters() {
    assert_eq!(validate_regex(&chars("a.b")), Err(SyntaxError::ForbiddenSymbol));
    assert_eq!(validate_regex(&chars("a#b")), Err(SyntaxError::ForbiddenSymbol));
    assert_eq!(validate_regex(&chars("a\\.b")), Ok(()));
    assert_eq!(validate_regex(&chars("a\\#b")), Ok(()));
}

#[test]
fn validation_rejects_doubled_operators() {
    assert_eq!(validate_regex(&chars("a**")), Err(SyntaxError::RepeatedOperator));
    assert_eq!(validate_regex(&chars("a||b")), Err(SyntaxError::RepeatedOperator));
    assert_eq!(validate_regex(&chars("a\\**")), Ok(()));
}

#[test]
fn trailing_escape_fails_in_parsing() {
    // validation admits a trailing escape marker; the parser then misses the
    // operand the escape still expects
    assert_eq!(validate_regex(&chars("ab\\")), Ok(()));
    assert_eq!(parse(&chars("ab\\")).unwrap_err(), SyntaxError::UnexpectedEndOfInput);
    assert!(parse(&chars("ab\\\\")).is_ok());
}

#[test]
fn parse_rejects_malformed_patterns() {
    assert_eq!(parse(&chars("(a")).unwrap_err(), SyntaxError::UnexpectedEndOfInput);
    assert_eq!(parse(&chars("a)b")).unwrap_err(), SyntaxError::ForbiddenSymbol);
    assert_eq!(parse(&chars("a**")).unwrap_err(), SyntaxError::RepeatedOperator);
    assert_eq!(parse(&chars("ab\\")).unwrap_err(), SyntaxError::UnexpectedEndOfInput);
}

#[test]
fn parse_builds_the_terminated_tree() {
    // a|b parses to CONCAT(OR(a, b), terminator)
    let t = parse(&chars("a|b")).unwrap();
    match &t.entry {
        GrammarType::OPERATION(Operations::CONCAT) => {}
        other => panic!("expected a concat root, got {:?}", other),
    }
    let left = t.left.as_ref().unwrap();
    match &left.entry {
        GrammarType::OPERATION(Operations::OR) => {}
        other => panic!("expected a union below the root, got {:?}", other),
    }
    let right = t.right.as_ref().unwrap();
    assert_eq!(right.entry, GrammarType::OPERATION(Operations::TERMINATOR));
}

#[test]
fn escaped_operator_is_a_literal() {
    let (_, dfa, min) = pipeline("\\*");
    assert_eq!(dfa.alphabet, vec!['*']);
    assert!(run_dfa(&min, "*"));
    assert!(!run_dfa(&min, ""));
    assert!(!run_dfa(&min, "**"));
}

#[test]
fn missing_operands_fail_in_parsing() {
    // the grammar demands an operand on each side of a union, and a pattern
    // with no operand at all
    assert_eq!(parse(&chars("a|")).unwrap_err(), SyntaxError::UnexpectedEndOfInput);
    assert_eq!(parse(&chars("")).unwrap_err(), SyntaxError::UnexpectedEndOfInput);
}

#[test]
fn well_formedness_is_decidable() {
    let tree = parse(&chars("(a|b)*abb")).unwrap();
    assert!(tree.check_wf());
    // leaves: a, b, a, b, b, and the terminator
    assert_eq!(tree.count_leaves(), Some(6));
    let (_, dfa, min) = pipeline("(a|b)*abb");
    assert!(dfa.check_wf());
    assert!(min.check_wf());
}

#[test]
fn operations_character_mapping() {
    assert_eq!(Operations::from_char(&'|'), Some(Operations::OR));
    assert_eq!(Operations::from_char(&'*'), Some(Operations::REPETITION));
    assert_eq!(Operations::from_char(&'x'), None);
    assert_eq!(Operations::from_string("("), Some(Operations::LBRACKET));
    assert_eq!(Operations::from_string("ab"), None);
    assert_eq!(Operations::OR.as_string(), "|");
    assert_eq!(Operations::TERMINATOR.as_char(), '#');
}
