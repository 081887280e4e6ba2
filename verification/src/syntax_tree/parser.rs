//! Recursive-descent parsing of a pattern into a syntax tree.
//!
//! The grammar, lowest to highest precedence, after concat-insertion:
//!
//! ```text
//! regex  ::= concat ('|' regex)?
//! concat ::= factor ('.' concat)?
//! factor ::= base '*'?
//! base   ::= '\' any-char | '(' regex ')' | any-char
//! ```
//!
//! Parsing is single pass with one-character lookahead and no backtracking.
//! The synthetic terminator is attached above the parsed tree, as the
//! rightmost operand of a final concatenation, so that it concatenates with
//! the pattern as a whole, below every union.

use vstd::prelude::*;

use crate::syntax_tree::utils::{
    apply_insertion, has_forbidden_char, has_repeated_op, spec_insert_markers, validate_regex,
};
use crate::syntax_tree::{GrammarType, Operations, SyntaxError, SyntaxTree};

verus! {

/// The `base` production as a mathematical function of the input and the
/// current position: an escaped literal, a bracketed subexpression, or a
/// plain literal character. A reserved or operator character in operand
/// position is refused.
pub open spec fn spec_base(s: Seq<char>, i: int) -> Result<(SyntaxTree, int), SyntaxError>
    decreases s.len() - i, 0int,
{
    if i < 0 || i >= s.len() {
        Err(SyntaxError::UnexpectedEndOfInput)
    } else if s[i] == '\\' {
        if i + 1 < s.len() {
            Ok((SyntaxTree { entry: GrammarType::CHAR(s[i + 1]), left: None, right: None }, i + 2))
        } else {
            Err(SyntaxError::UnexpectedEndOfInput)
        }
    } else if s[i] == '(' {
        match spec_regex(s, i + 1) {
            Ok((t, j)) => if j < s.len() {
                if s[j] == ')' {
                    Ok((t, j + 1))
                } else {
                    Err(SyntaxError::ForbiddenSymbol)
                }
            } else {
                Err(SyntaxError::UnexpectedEndOfInput)
            },
            Err(e) => Err(e),
        }
    } else if s[i] == '|' || s[i] == '*' || s[i] == '.' || s[i] == ')' || s[i] == '#' {
        Err(SyntaxError::ForbiddenSymbol)
    } else {
        Ok((SyntaxTree { entry: GrammarType::CHAR(s[i]), left: None, right: None }, i + 1))
    }
}

/// The `factor` production: a `base`, optionally followed by a repetition.
pub open spec fn spec_factor(s: Seq<char>, i: int) -> Result<(SyntaxTree, int), SyntaxError>
    decreases s.len() - i, 1int,
{
    match spec_base(s, i) {
        Ok((t, j)) => if 0 <= j < s.len() && s[j] == '*' {
            Ok(
                (
                    SyntaxTree {
                        entry: GrammarType::OPERATION(Operations::REPETITION),
                        left: Some(Box::new(t)),
                        right: None,
                    },
                    j + 1,
                ),
            )
        } else {
            Ok((t, j))
        },
        Err(e) => Err(e),
    }
}

/// The `concat` production: a `factor`, optionally concatenated (through the
/// explicit marker) with a further `concat`. Right-leaning by construction.
pub open spec fn spec_concat(s: Seq<char>, i: int) -> Result<(SyntaxTree, int), SyntaxError>
    decreases s.len() - i, 2int,
{
    match spec_factor(s, i) {
        Ok((t, j)) => if i <= j < s.len() && s[j] == '.' {
            match spec_concat(s, j + 1) {
                Ok((u, k)) => Ok(
                    (
                        SyntaxTree {
                            entry: GrammarType::OPERATION(Operations::CONCAT),
                            left: Some(Box::new(t)),
                            right: Some(Box::new(u)),
                        },
                        k,
                    ),
                ),
                Err(e) => Err(e),
            }
        } else {
            Ok((t, j))
        },
        Err(e) => Err(e),
    }
}

/// The `regex` production: a `concat`, optionally united with a further
/// `regex`.
pub open spec fn spec_regex(s: Seq<char>, i: int) -> Result<(SyntaxTree, int), SyntaxError>
    decreases s.len() - i, 3int,
{
    match spec_concat(s, i) {
        Ok((t, j)) => if i <= j < s.len() && s[j] == '|' {
            match spec_regex(s, j + 1) {
                Ok((u, k)) => Ok(
                    (
                        SyntaxTree {
                            entry: GrammarType::OPERATION(Operations::OR),
                            left: Some(Box::new(t)),
                            right: Some(Box::new(u)),
                        },
                        k,
                    ),
                ),
                Err(e) => Err(e),
            }
        } else {
            Ok((t, j))
        },
        Err(e) => Err(e),
    }
}

/// The terminator leaf.
pub open spec fn spec_terminator_leaf() -> SyntaxTree {
    SyntaxTree {
        entry: GrammarType::OPERATION(Operations::TERMINATOR),
        left: None,
        right: None,
    }
}

/// The tree of a pattern with the synthetic terminator concatenated at the
/// root, as the rightmost operand.
pub open spec fn spec_terminated(t: SyntaxTree) -> SyntaxTree {
    SyntaxTree {
        entry: GrammarType::OPERATION(Operations::CONCAT),
        left: Some(Box::new(t)),
        right: Some(Box::new(spec_terminator_leaf())),
    }
}

/// The parse of a raw pattern, as the pipeline performs it: validate, insert
/// explicit concat markers, parse the whole text, and concatenate the
/// terminator at the root.
pub open spec fn spec_parse(pattern: Seq<char>) -> Result<SyntaxTree, SyntaxError> {
    if has_forbidden_char(pattern) {
        Err(SyntaxError::ForbiddenSymbol)
    } else if has_repeated_op(pattern) {
        Err(SyntaxError::RepeatedOperator)
    } else {
        let s = spec_insert_markers(pattern);
        match spec_regex(s, 0) {
            Ok((t, j)) => if j == s.len() {
                Ok(spec_terminated(t))
            } else {
                Err(SyntaxError::ForbiddenSymbol)
            },
            Err(e) => Err(e),
        }
    }
}

/// Every tree the `base` production yields is structurally valid and free of
/// terminator leaves (only the final concatenation introduces one).
pub proof fn lemma_base_wf(s: Seq<char>, i: int)
    ensures
        spec_base(s, i) matches Ok((t, j)) ==> t.wf() && i < j <= s.len() && t.terminator_count()
            == 0,
    decreases s.len() - i, 0int,
{
    if 0 <= i < s.len() && s[i] == '(' {
        lemma_regex_wf(s, i + 1);
    }
}

/// Every tree the `factor` production yields is structurally valid and free
/// of terminator leaves.
pub proof fn lemma_factor_wf(s: Seq<char>, i: int)
    ensures
        spec_factor(s, i) matches Ok((t, j)) ==> t.wf() && i < j <= s.len() && t.terminator_count()
            == 0,
    decreases s.len() - i, 1int,
{
    lemma_base_wf(s, i);
}

/// Every tree the `concat` production yields is structurally valid and free
/// of terminator leaves.
pub proof fn lemma_concat_wf(s: Seq<char>, i: int)
    ensures
        spec_concat(s, i) matches Ok((t, j)) ==> t.wf() && i < j <= s.len() && t.terminator_count()
            == 0,
    decreases s.len() - i, 2int,
{
    lemma_factor_wf(s, i);
    match spec_factor(s, i) {
        Ok((t, j)) => {
            if i <= j < s.len() && s[j] == '.' {
                lemma_concat_wf(s, j + 1);
            }
        },
        Err(_) => {},
    }
}

/// Every tree the `regex` production yields is structurally valid and free
/// of terminator leaves.
pub proof fn lemma_regex_wf(s: Seq<char>, i: int)
    ensures
        spec_regex(s, i) matches Ok((t, j)) ==> t.wf() && i < j <= s.len() && t.terminator_count()
            == 0,
    decreases s.len() - i, 3int,
{
    lemma_concat_wf(s, i);
    match spec_concat(s, i) {
        Ok((t, j)) => {
            if i <= j < s.len() && s[j] == '|' {
                lemma_regex_wf(s, j + 1);
            }
        },
        Err(_) => {},
    }
}

/// Concatenating the terminator at the root of a valid terminator-free tree
/// gives a tree fit for the pipeline: valid, exactly one terminator leaf,
/// standing rightmost.
pub proof fn lemma_terminated_pipeline_wf(root: SyntaxTree)
    requires
        root.entry == GrammarType::OPERATION(Operations::CONCAT),
        root.right matches Some(r) && (*r) == spec_terminator_leaf(),
        root.left matches Some(l) && (*l).wf() && (*l).terminator_count() == 0,
    ensures
        root.pipeline_wf(),
{
    match (root.left, root.right) {
        (Some(l), Some(r)) => {
            crate::fsm::utils::lemma_leaf_count_pos(*l);
            assert((*r).entry == GrammarType::OPERATION(Operations::TERMINATOR));
            assert((*r).left is None && (*r).right is None);
            assert((*r).leaf_count() == 1);
            assert((*r).wf());
            assert(root.leaf_count() == (*l).leaf_count() + 1);
            assert(root.terminator_count() == (*l).terminator_count() + (*r).terminator_count());
            assert((*r).terminator_count() == 1);
            assert(root.leaf_entry(root.leaf_count() - 1) == (*r).leaf_entry(0));
        },
        _ => {},
    }
}

fn parse_base(s: &Vec<char>, i: usize) -> (r: Result<(Box<SyntaxTree>, usize), SyntaxError>)
    requires
        i <= s@.len(),
    ensures
        match r {
            Ok((t, j)) => spec_base(s@, i as int) == Ok::<_, SyntaxError>((*t, j as int)) && i < j
                <= s@.len(),
            Err(e) => spec_base(s@, i as int) == Err::<(SyntaxTree, int), _>(e),
        },
    decreases s@.len() - i, 0int,
{
    if i >= s.len() {
        return Err(SyntaxError::UnexpectedEndOfInput);
    }
    let c = s[i];
    if c == '\\' {
        if i + 1 < s.len() {
            Ok(
                (
                    Box::new(SyntaxTree { entry: GrammarType::CHAR(s[i + 1]), left: None, right: None }),
                    i + 2,
                ),
            )
        } else {
            Err(SyntaxError::UnexpectedEndOfInput)
        }
    } else if c == '(' {
        let (t, j) = parse_regex(s, i + 1)?;
        if j < s.len() {
            if s[j] == ')' {
                Ok((t, j + 1))
            } else {
                Err(SyntaxError::ForbiddenSymbol)
            }
        } else {
            Err(SyntaxError::UnexpectedEndOfInput)
        }
    } else if c == '|' || c == '*' || c == '.' || c == ')' || c == '#' {
        Err(SyntaxError::ForbiddenSymbol)
    } else {
        Ok((Box::new(SyntaxTree { entry: GrammarType::CHAR(c), left: None, right: None }), i + 1))
    }
}

fn parse_factor(s: &Vec<char>, i: usize) -> (r: Result<(Box<SyntaxTree>, usize), SyntaxError>)
    requires
        i <= s@.len(),
    ensures
        match r {
            Ok((t, j)) => spec_factor(s@, i as int) == Ok::<_, SyntaxError>((*t, j as int)) && i
                < j <= s@.len(),
            Err(e) => spec_factor(s@, i as int) == Err::<(SyntaxTree, int), _>(e),
        },
    decreases s@.len() - i, 1int,
{
    let (t, j) = parse_base(s, i)?;
    if j < s.len() && s[j] == '*' {
        Ok(
            (
                Box::new(
                    SyntaxTree {
                        entry: GrammarType::OPERATION(Operations::REPETITION),
                        left: Some(t),
                        right: None,
                    },
                ),
                j + 1,
            ),
        )
    } else {
        Ok((t, j))
    }
}

fn parse_concat(s: &Vec<char>, i: usize) -> (r: Result<(Box<SyntaxTree>, usize), SyntaxError>)
    requires
        i <= s@.len(),
    ensures
        match r {
            Ok((t, j)) => spec_concat(s@, i as int) == Ok::<_, SyntaxError>((*t, j as int)) && i
                < j <= s@.len(),
            Err(e) => spec_concat(s@, i as int) == Err::<(SyntaxTree, int), _>(e),
        },
    decreases s@.len() - i, 2int,
{
    let (t, j) = parse_factor(s, i)?;
    if j < s.len() && s[j] == '.' {
        let (u, k) = parse_concat(s, j + 1)?;
        Ok(
            (
                Box::new(
                    SyntaxTree {
                        entry: GrammarType::OPERATION(Operations::CONCAT),
                        left: Some(t),
                        right: Some(u),
                    },
                ),
                k,
            ),
        )
    } else {
        Ok((t, j))
    }
}

fn parse_regex(s: &Vec<char>, i: usize) -> (r: Result<(Box<SyntaxTree>, usize), SyntaxError>)
    requires
        i <= s@.len(),
    ensures
        match r {
            Ok((t, j)) => spec_regex(s@, i as int) == Ok::<_, SyntaxError>((*t, j as int)) && i < j
                <= s@.len(),
            Err(e) => spec_regex(s@, i as int) == Err::<(SyntaxTree, int), _>(e),
        },
    decreases s@.len() - i, 3int,
{
    let (t, j) = parse_concat(s, i)?;
    if j < s.len() && s[j] == '|' {
        let (u, k) = parse_regex(s, j + 1)?;
        Ok(
            (
                Box::new(
                    SyntaxTree {
                        entry: GrammarType::OPERATION(Operations::OR),
                        left: Some(t),
                        right: Some(u),
                    },
                ),
                k,
            ),
        )
    } else {
        Ok((t, j))
    }
}

/// Parses a raw pattern: validates it, inserts explicit concat markers, runs
/// the recursive descent over the whole text, and concatenates the synthetic
/// terminator at the root, as the rightmost operand.
pub fn parse(regex: &Vec<char>) -> (r: Result<Box<SyntaxTree>, SyntaxError>)
    ensures
        match r {
            Ok(t) => spec_parse(regex@) == Ok::<SyntaxTree, SyntaxError>(*t)
                && (*t).pipeline_wf(),
            Err(e) => spec_parse(regex@) == Err::<SyntaxTree, SyntaxError>(e),
        },
{
    validate_regex(regex)?;

    let s = apply_insertion(regex);
    proof {
        lemma_regex_wf(s@, 0);
    }

    match parse_regex(&s, 0) {
        Ok((t, j)) => {
            if j == s.len() {
                let ghost pt = *t;
                let terminator = Box::new(
                    SyntaxTree {
                        entry: GrammarType::OPERATION(Operations::TERMINATOR),
                        left: None,
                        right: None,
                    },
                );
                let root = Box::new(
                    SyntaxTree {
                        entry: GrammarType::OPERATION(Operations::CONCAT),
                        left: Some(t),
                        right: Some(terminator),
                    },
                );
                proof {
                    assert((*root).right matches Some(r) && (*r) == spec_terminator_leaf());
                    assert((*root).left matches Some(l) && (*l) == pt);
                    lemma_terminated_pipeline_wf(*root);
                    assert(*root == spec_terminated(pt));
                }
                Ok(root)
            } else {
                Err(SyntaxError::ForbiddenSymbol)
            }
        },
        Err(e) => Err(e),
    }
}

} // verus!
