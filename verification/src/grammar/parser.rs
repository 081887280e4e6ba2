//! Parsing a tokenized grammar description into a `Grammar`: the caller
//! (outside the verified core) reads the text and splits it into lines of
//! whitespace-separated tokens; everything after that — counts, symbol
//! classification, production layout, the start symbol — is decided here.
//!
//! The expected layout: a non-terminal count line, the non-terminals, a
//! terminal count line, the terminals, a production count line, one line per
//! production (head first), and the start symbol line.

use vstd::prelude::*;

use crate::grammar::transformations::{char_string_eps, contains_str, no_dup_strs};
use crate::grammar::{eps_spelling, str_set, Grammar, Production, Symbol, SymbolsKind};

verus! {

/// A malformed grammar description: a missing or unreadable section, a
/// production of the wrong shape, or a symbol that belongs to no declared
/// class.
#[derive(Debug, Clone, Copy, PartialEq, Eq, Structural)]
pub enum ParseError {
    NonTermsNNotFound,
    NonTermsNotFound,
    TermsNNotFound,
    TermsNotFound,
    ProductionsNNotFound,
    InvalidProductionStart,
    InvalidProduction,
    ExpectedProductionNotFound,
    StartSymbolNotFound,
    FailedConvertIntoSymbol,
    InvalidStartSymbol,
    InvalidCount,
}

/// The numeric value of a decimal digit.
pub open spec fn digit_val(c: char) -> int {
    c as int - '0' as int
}

/// Whether every character is a decimal digit.
pub open spec fn all_digits(s: Seq<char>) -> bool {
    forall|i: int| 0 <= i < s.len() ==> '0' <= #[trigger] s[i] <= '9'
}

/// The number a digit string denotes.
pub open spec fn digits_value(s: Seq<char>) -> int
    decreases s.len(),
{
    if s.len() == 0 {
        0
    } else {
        digits_value(s.drop_last()) * 10 + digit_val(s.last())
    }
}

/// A digit string's value only grows as digits are appended.
proof fn lemma_digits_value_mono(s: Seq<char>, i: int)
    requires
        0 <= i <= s.len(),
        all_digits(s),
    ensures
        0 <= digits_value(s.subrange(0, i)) <= digits_value(s),
    decreases s.len() - i,
{
    if i < s.len() {
        lemma_digits_value_mono(s, i + 1);
        assert(s.subrange(0, i + 1).drop_last() =~= s.subrange(0, i));
        assert(s.subrange(0, i + 1).last() == s[i]);
        assert(digits_value(s.subrange(0, i + 1)) == digits_value(s.subrange(0, i)) * 10
            + digit_val(s[i]));
        assert(digits_value(s.subrange(0, i)) >= 0) by {
            lemma_digits_value_nonneg(s.subrange(0, i));
        }
    } else {
        assert(s.subrange(0, i) =~= s);
        lemma_digits_value_nonneg(s);
    }
}

/// A digit string's value is never negative.
proof fn lemma_digits_value_nonneg(s: Seq<char>)
    requires
        all_digits(s),
    ensures
        digits_value(s) >= 0,
    decreases s.len(),
{
    if s.len() > 0 {
        assert(all_digits(s.drop_last())) by {
            assert(forall|i: int| 0 <= i < s.len() - 1 ==> s.drop_last()[i] == s[i]);
        }
        lemma_digits_value_nonneg(s.drop_last());
    }
}

/// Reads a decimal count: the token must be nonempty, all digits, and its
/// value must fit the machine.
pub fn parse_count(token: &String) -> (r: Result<usize, ParseError>)
    ensures
        match r {
            Ok(n) => token@.len() > 0 && all_digits(token@) && n == digits_value(token@),
            Err(e) => e == ParseError::InvalidCount && !(token@.len() > 0 && all_digits(token@)
                && digits_value(token@) <= usize::MAX),
        },
{
    let s = token.as_str();
    let len = s.unicode_len();
    if len == 0 {
        return Err(ParseError::InvalidCount);
    }
    let mut acc: usize = 0;
    let mut i: usize = 0;
    while i < len
        invariant
            len == token@.len(),
            i <= len,
            forall|k: int| 0 <= k < i ==> '0' <= #[trigger] token@[k] <= '9',
            acc == digits_value(token@.subrange(0, i as int)),
            s@ == token@,
        decreases len - i,
    {
        let c = s.get_char(i);
        if c < '0' || c > '9' {
            proof {
                assert(!all_digits(token@));
            }
            return Err(ParseError::InvalidCount);
        }
        let d = (c as u32 - '0' as u32) as usize;
        let next = match acc.checked_mul(10) {
            Some(m) => m.checked_add(d),
            None => None,
        };
        match next {
            Some(v) => {
                proof {
                    assert(token@.subrange(0, i + 1).drop_last() =~= token@.subrange(0, i as int));
                    assert(token@.subrange(0, i + 1).last() == token@[i as int]);
                }
                acc = v;
            },
            None => {
                // the value read so far already exceeds the machine, so if
                // the whole token were a number it would not fit
                proof {
                    if token@.len() > 0 && all_digits(token@) && digits_value(token@)
                        <= usize::MAX {
                        lemma_digits_value_mono(token@, i + 1);
                        assert(token@.subrange(0, i + 1).drop_last() =~= token@.subrange(
                            0,
                            i as int,
                        ));
                        assert(token@.subrange(0, i + 1).last() == token@[i as int]);
                        assert(digits_value(token@.subrange(0, i + 1)) == acc * 10 + digit_val(
                            token@[i as int],
                        ));
                    }
                }
                return Err(ParseError::InvalidCount);
            },
        }
        i += 1;
    }
    proof {
        assert(token@.subrange(0, len as int) =~= token@);
    }
    Ok(acc)
}

/// Classifies one token: the epsilon symbol, then a declared non-terminal,
/// then a declared terminal; anything else is refused.
pub fn convert_string_to_symbol(
    s: &String,
    non_terms: &Vec<String>,
    terms: &Vec<String>,
) -> (r: Result<Symbol, ParseError>)
    ensures
        match r {
            Ok(sym) => sym.value@ == s@ && sym.kind == (if s@ == eps_spelling() {
                SymbolsKind::EPSILON
            } else if str_set(non_terms@).contains(s@) {
                SymbolsKind::NONTERM
            } else {
                SymbolsKind::TERM
            }) && (s@ == eps_spelling() || str_set(non_terms@).contains(s@) || str_set(
                terms@,
            ).contains(s@)),
            Err(e) => e == ParseError::FailedConvertIntoSymbol && s@ != eps_spelling()
                && !str_set(non_terms@).contains(s@) && !str_set(terms@).contains(s@),
        },
{
    if is_eps_token(s) {
        return Ok(Symbol { kind: SymbolsKind::EPSILON, value: s.clone() });
    }
    if contains_str(non_terms, s) {
        return Ok(Symbol { kind: SymbolsKind::NONTERM, value: s.clone() });
    }
    if contains_str(terms, s) {
        return Ok(Symbol { kind: SymbolsKind::TERM, value: s.clone() });
    }
    Err(ParseError::FailedConvertIntoSymbol)
}

/// Whether a token spells the epsilon symbol.
fn is_eps_token(s: &String) -> (r: bool)
    ensures
        r == (s@ == eps_spelling()),
{
    let eps = char_string_eps();
    s.eq(&eps)
}

/// Reads a symbol section: deduplicates the tokens and checks the count.
fn parse_symbols_section(
    count_token: &String,
    symbols: &Vec<String>,
    miscount: ParseError,
) -> (r: Result<Vec<String>, ParseError>)
    ensures
        match r {
            Ok(v) => no_dup_strs(v@) && (forall|x: Seq<char>|
                str_set(v@).contains(x) <==> str_set(symbols@).contains(x)) && all_digits(
                count_token@,
            ) && v@.len() == digits_value(count_token@),
            Err(e) => e == miscount || e == ParseError::InvalidCount,
        },
{
    let n = match parse_count(count_token) {
        Ok(n) => n,
        Err(_) => {
            return Err(ParseError::InvalidCount);
        },
    };
    let mut v: Vec<String> = Vec::new();
    let mut i: usize = 0;
    while i < symbols.len()
        invariant
            i <= symbols@.len(),
            no_dup_strs(v@),
            forall|x: Seq<char>|
                str_set(v@).contains(x) <==> str_set(symbols@.subrange(0, i as int)).contains(x),
        decreases symbols@.len() - i,
    {
        let ghost v0 = v@;
        insert_unique_str(&mut v, &symbols[i]);
        proof {
            assert(symbols@.subrange(0, i + 1) =~= symbols@.subrange(0, i as int).push(
                symbols@[i as int],
            ));
            assert forall|x: Seq<char>|
                str_set(v@).contains(x) <==> str_set(symbols@.subrange(0, i + 1)).contains(
                    x,
                ) by {
                if str_set(v@).contains(x) {
                    if str_set(v0).contains(x) {
                        let k = choose|k: int|
                            0 <= k < symbols@.subrange(0, i as int).len() && (
                            #[trigger] symbols@.subrange(0, i as int)[k])@ == x;
                        assert(symbols@.subrange(0, i + 1)[k]@ == x);
                    } else {
                        assert(x == symbols@[i as int]@);
                        assert(symbols@.subrange(0, i + 1)[i as int]@ == x);
                    }
                }
                if str_set(symbols@.subrange(0, i + 1)).contains(x) {
                    let k = choose|k: int|
                        0 <= k < symbols@.subrange(0, i + 1).len() && (
                        #[trigger] symbols@.subrange(0, i + 1)[k])@ == x;
                    if k < i {
                        assert(symbols@.subrange(0, i as int)[k]@ == x);
                        assert(str_set(v0).contains(x));
                    } else {
                        assert(x == symbols@[i as int]@);
                    }
                }
            }
        }
        i += 1;
    }
    proof {
        assert(symbols@.subrange(0, symbols@.len() as int) =~= symbols@);
    }
    if v.len() != n {
        return Err(miscount);
    }
    Ok(v)
}

/// Appends a spelling to the list unless it is already spelled there.
fn insert_unique_str(v: &mut Vec<String>, s: &String)
    requires
        no_dup_strs(old(v)@),
    ensures
        no_dup_strs(final(v)@),
        forall|x: Seq<char>|
            str_set(final(v)@).contains(x) <==> (str_set(old(v)@).contains(x) || x == s@),
{
    if !contains_str(v, s) {
        let ghost v0 = v@;
        v.push(s.clone());
        proof {
            assert(v@[v@.len() - 1]@ == s@);
            assert(no_dup_strs(v@)) by {
                assert forall|i: int, j: int|
                    0 <= i < j < v@.len() implies (#[trigger] v@[i])@ != (#[trigger] v@[j])@ by {
                    if j == v@.len() - 1 {
                        if v@[i]@ == v@[j]@ {
                            assert(str_set(v0).contains(v@[j]@));
                        }
                    }
                }
            }
            assert forall|x: Seq<char>|
                str_set(v@).contains(x) <==> (str_set(v0).contains(x) || x == s@) by {
                if str_set(v@).contains(x) {
                    let k = choose|k: int| 0 <= k < v@.len() && (#[trigger] v@[k])@ == x;
                    if k < v0.len() {
                        assert(str_set(v0).contains(x));
                    }
                }
                if str_set(v0).contains(x) {
                    let k = choose|k: int| 0 <= k < v0.len() && (#[trigger] v0[k])@ == x;
                    assert(v@[k]@ == x);
                }
            }
        }
    } else {
        proof {
            assert forall|x: Seq<char>|
                str_set(v@).contains(x) <==> (str_set(v@).contains(x) || x == s@) by {
                if x == s@ {
                    assert(str_set(v@).contains(x));
                }
            }
        }
    }
}

/// Reads the non-terminal section.
pub fn parse_non_terms(count_token: &String, symbols: &Vec<String>) -> (r: Result<
    Vec<String>,
    ParseError,
>)
    ensures
        match r {
            Ok(v) => no_dup_strs(v@) && (forall|x: Seq<char>|
                str_set(v@).contains(x) <==> str_set(symbols@).contains(x)),
            Err(e) => e == ParseError::NonTermsNotFound || e == ParseError::InvalidCount,
        },
{
    parse_symbols_section(count_token, symbols, ParseError::NonTermsNotFound)
}

/// Reads the terminal section.
pub fn parse_terms(count_token: &String, symbols: &Vec<String>) -> (r: Result<
    Vec<String>,
    ParseError,
>)
    ensures
        match r {
            Ok(v) => no_dup_strs(v@) && (forall|x: Seq<char>|
                str_set(v@).contains(x) <==> str_set(symbols@).contains(x)),
            Err(e) => e == ParseError::TermsNotFound || e == ParseError::InvalidCount,
        },
{
    parse_symbols_section(count_token, symbols, ParseError::TermsNotFound)
}

/// Reads the production lines: each one classifies its tokens, must hold a
/// head and at least one expression symbol, and must start with a
/// non-terminal.
pub fn parse_productions(
    lines: &Vec<Vec<String>>,
    n: usize,
    non_terms: &Vec<String>,
    terms: &Vec<String>,
) -> (r: Result<Vec<Production>, ParseError>)
    requires
        n <= lines@.len(),
    ensures
        match r {
            Ok(ps) => ps@.len() == n && forall|i: int|
                0 <= i < n ==> (#[trigger] ps@[i]).expression@.len() == lines@[i]@.len() - 1
                    && ps@[i].replaced_symbol.value@ == lines@[i]@[0]@
                    && ps@[i].replaced_symbol.kind == SymbolsKind::NONTERM && ps@[i
                ].expression@.len() >= 1 && (forall|k: int|
                    0 <= k < ps@[i].expression@.len() ==> (
                    #[trigger] ps@[i].expression@[k]).value@ == lines@[i]@[k + 1]@),
            Err(_) => true,
        },
{
    let mut productions: Vec<Production> = Vec::new();
    let mut i: usize = 0;
    while i < n
        invariant
            i <= n,
            n <= lines@.len(),
            productions@.len() == i,
            forall|w: int|
                0 <= w < i ==> (#[trigger] productions@[w]).expression@.len() == lines@[w]@.len()
                    - 1 && productions@[w].replaced_symbol.value@ == lines@[w]@[0]@
                    && productions@[w].replaced_symbol.kind == SymbolsKind::NONTERM
                    && productions@[w].expression@.len() >= 1 && (forall|k: int|
                    0 <= k < productions@[w].expression@.len() ==> (
                    #[trigger] productions@[w].expression@[k]).value@ == lines@[w]@[k + 1]@),
        decreases n - i,
    {
        let tokens = &lines[i];
        if tokens.len() < 2 {
            return Err(ParseError::InvalidProduction);
        }
        let head = match convert_string_to_symbol(&tokens[0], non_terms, terms) {
            Ok(sym) => sym,
            Err(e) => {
                return Err(e);
            },
        };
        if head.kind != SymbolsKind::NONTERM {
            return Err(ParseError::InvalidProductionStart);
        }
        let mut expression: Vec<Symbol> = Vec::new();
        let mut k: usize = 1;
        while k < tokens.len()
            invariant
                tokens@ == lines@[i as int]@,
                i < lines@.len(),
                1 <= k <= tokens@.len(),
                expression@.len() == k - 1,
                forall|z: int|
                    0 <= z < k - 1 ==> (#[trigger] expression@[z]).value@ == tokens@[z + 1]@,
            decreases tokens@.len() - k,
        {
            let sym = match convert_string_to_symbol(&tokens[k], non_terms, terms) {
                Ok(sym) => sym,
                Err(e) => {
                    return Err(e);
                },
            };
            expression.push(sym);
            k += 1;
        }
        productions.push(Production { replaced_symbol: head, expression });
        i += 1;
    }
    Ok(productions)
}

/// Reads the start symbol: it must be one of the non-terminals.
pub fn parse_start(token: &String, non_terms: &Vec<String>) -> (r: Result<String, ParseError>)
    ensures
        match r {
            Ok(v) => v@ == token@ && str_set(non_terms@).contains(token@),
            Err(e) => e == ParseError::InvalidStartSymbol && !str_set(non_terms@).contains(
                token@,
            ),
        },
{
    if !contains_str(non_terms, token) {
        return Err(ParseError::InvalidStartSymbol);
    }
    Ok(token.clone())
}

/// Parses a whole tokenized grammar description: the non-terminal section,
/// the terminal section, the production lines, and the start symbol, in that
/// order. A missing section is reported as such.
pub fn parse(lines: &Vec<Vec<String>>) -> (r: Result<Grammar, ParseError>)
    ensures
        match r {
            Ok(g) => no_dup_strs(g.non_terms@) && no_dup_strs(g.terms@) && str_set(
                g.non_terms@,
            ).contains(g.start@) && forall|i: int|
                0 <= i < g.productions@.len() ==> (
                #[trigger] g.productions@[i]).replaced_symbol.kind == SymbolsKind::NONTERM
                    && g.productions@[i].expression@.len() >= 1,
            Err(_) => true,
        },
{
    if lines.len() < 1 || lines[0].len() != 1 {
        return Err(ParseError::NonTermsNNotFound);
    }
    if lines.len() < 2 {
        return Err(ParseError::NonTermsNotFound);
    }
    let non_terms = parse_non_terms(&lines[0][0], &lines[1])?;

    if lines.len() < 3 || lines[2].len() != 1 {
        return Err(ParseError::TermsNNotFound);
    }
    if lines.len() < 4 {
        return Err(ParseError::TermsNotFound);
    }
    let terms = parse_terms(&lines[2][0], &lines[3])?;

    if lines.len() < 5 || lines[4].len() != 1 {
        return Err(ParseError::ProductionsNNotFound);
    }
    let n = match parse_count(&lines[4][0]) {
        Ok(n) => n,
        Err(e) => {
            return Err(e);
        },
    };
    if usize::MAX - 5 < n || lines.len() < 5 + n {
        return Err(ParseError::ExpectedProductionNotFound);
    }
    let mut production_lines: Vec<Vec<String>> = Vec::new();
    let mut i: usize = 0;
    while i < n
        invariant
            i <= n,
            n <= usize::MAX - 5,
            5 + n <= lines@.len(),
            production_lines@.len() == i,
        decreases n - i,
    {
        production_lines.push(lines[5 + i].clone());
        i += 1;
    }
    let productions = parse_productions(&production_lines, n, &non_terms, &terms)?;

    if lines.len() == 5 + n || lines[5 + n].len() != 1 {
        return Err(ParseError::StartSymbolNotFound);
    }
    let start = parse_start(&lines[5 + n][0], &non_terms)?;

    Ok(Grammar { non_terms, terms, productions, start })
}

} // verus!
