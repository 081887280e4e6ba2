//! Syntax trees for the regular-expression dialect: union, explicit
//! concatenation, Kleene star, grouping, single-character escaping, and a
//! synthetic terminator appended by preprocessing.

pub mod parser;
pub mod utils;

use vstd::prelude::*;

verus! {

/// A malformed pattern, detected during preprocessing or parsing, before any
/// tree is built: an operand was expected and none was found, a reserved
/// character was used unescaped (or an operator stood where no operator may),
/// or a union or repetition operator was doubled.
#[derive(Debug, Clone, Copy, PartialEq, Eq, Structural)]
pub enum SyntaxError {
    UnexpectedEndOfInput,
    ForbiddenSymbol,
    RepeatedOperator,
}

/// The closed operator set of the dialect. `CONCAT` is inserted explicitly by
/// preprocessing; `TERMINATOR` is the synthetic end marker.
#[derive(Debug, Clone, Copy, PartialEq, Eq, Structural)]
pub enum Operations {
    OR,
    REPETITION,
    CONCAT,
    LBRACKET,
    RBRACKET,
    TERMINATOR,
    ESCAPE,
}

/// A node tag: an operator, a literal character, or the terminator leaf.
#[derive(Debug, Clone, Copy, PartialEq, Eq, Structural)]
pub enum GrammarType {
    OPERATION(Operations),
    CHAR(char),
}

/// An owned binary/unary syntax tree. Operator nodes carry one child
/// (`REPETITION`, in `left`) or two (`OR`, `CONCAT`); leaves carry none.
#[derive(Debug)]
pub struct SyntaxTree {
    pub entry: GrammarType,
    pub left: Option<Box<SyntaxTree>>,
    pub right: Option<Box<SyntaxTree>>,
}

/// The character each operator is written as in a pattern.
pub open spec fn spec_op_char(op: Operations) -> char {
    match op {
        Operations::OR => '|',
        Operations::REPETITION => '*',
        Operations::CONCAT => '.',
        Operations::LBRACKET => '(',
        Operations::RBRACKET => ')',
        Operations::TERMINATOR => '#',
        Operations::ESCAPE => '\\',
    }
}

/// The operator a character stands for, if any.
pub open spec fn spec_op_of_char(c: char) -> Option<Operations> {
    if c == '|' {
        Some(Operations::OR)
    } else if c == '*' {
        Some(Operations::REPETITION)
    } else if c == '.' {
        Some(Operations::CONCAT)
    } else if c == '(' {
        Some(Operations::LBRACKET)
    } else if c == ')' {
        Some(Operations::RBRACKET)
    } else if c == '#' {
        Some(Operations::TERMINATOR)
    } else if c == '\\' {
        Some(Operations::ESCAPE)
    } else {
        None
    }
}

impl Operations {
    /// The operator a character stands for, if any.
    pub fn from_char(c: &char) -> (r: Option<Operations>)
        ensures
            r == spec_op_of_char(*c),
    {
        if *c == '|' {
            Some(Operations::OR)
        } else if *c == '*' {
            Some(Operations::REPETITION)
        } else if *c == '.' {
            Some(Operations::CONCAT)
        } else if *c == '(' {
            Some(Operations::LBRACKET)
        } else if *c == ')' {
            Some(Operations::RBRACKET)
        } else if *c == '#' {
            Some(Operations::TERMINATOR)
        } else if *c == '\\' {
            Some(Operations::ESCAPE)
        } else {
            None
        }
    }

    /// The operator a one-character string stands for, if any.
    pub fn from_string(s: &str) -> (r: Option<Operations>)
        ensures
            r == (if s@.len() == 1 {
                spec_op_of_char(s@[0])
            } else {
                None::<Operations>
            }),
    {
        if s.unicode_len() == 1 {
            Operations::from_char(&s.get_char(0))
        } else {
            None
        }
    }

    /// The character this operator is written as.
    pub fn as_char(&self) -> (r: char)
        ensures
            r == spec_op_char(*self),
    {
        match self {
            Operations::OR => '|',
            Operations::REPETITION => '*',
            Operations::CONCAT => '.',
            Operations::LBRACKET => '(',
            Operations::RBRACKET => ')',
            Operations::TERMINATOR => '#',
            Operations::ESCAPE => '\\',
        }
    }

    /// This operator as a one-character string.
    pub fn as_string(&self) -> (r: &'static str)
        ensures
            r@.len() == 1,
            r@[0] == spec_op_char(*self),
    {
        match self {
            Operations::OR => {
                proof {
                    reveal_strlit("|");
                }
                "|"
            },
            Operations::REPETITION => {
                proof {
                    reveal_strlit("*");
                }
                "*"
            },
            Operations::CONCAT => {
                proof {
                    reveal_strlit(".");
                }
                "."
            },
            Operations::LBRACKET => {
                proof {
                    reveal_strlit("(");
                }
                "("
            },
            Operations::RBRACKET => {
                proof {
                    reveal_strlit(")");
                }
                ")"
            },
            Operations::TERMINATOR => {
                proof {
                    reveal_strlit("#");
                }
                "#"
            },
            Operations::ESCAPE => {
                proof {
                    reveal_strlit("\\");
                }
                "\\"
            },
        }
    }
}

impl SyntaxTree {
    /// A structurally valid tree: `OR` and `CONCAT` nodes have two children,
    /// `REPETITION` nodes have exactly a left child, and leaves (literal
    /// characters and the terminator) have none. No other operator may tag a
    /// node.
    pub open spec fn wf(self) -> bool
        decreases self,
    {
        match self.entry {
            GrammarType::CHAR(_) => self.left is None && self.right is None,
            GrammarType::OPERATION(Operations::TERMINATOR) => self.left is None
                && self.right is None,
            GrammarType::OPERATION(Operations::REPETITION) => match (self.left, self.right) {
                (Some(l), None) => l.wf(),
                _ => false,
            },
            GrammarType::OPERATION(Operations::OR) => match (self.left, self.right) {
                (Some(l), Some(r)) => l.wf() && r.wf(),
                _ => false,
            },
            GrammarType::OPERATION(Operations::CONCAT) => match (self.left, self.right) {
                (Some(l), Some(r)) => l.wf() && r.wf(),
                _ => false,
            },
            _ => false,
        }
    }

    /// The number of leaves (literal characters and terminator leaves).
    pub open spec fn leaf_count(self) -> nat
        decreases self,
    {
        match (self.left, self.right) {
            (None, None) => 1,
            (Some(l), None) => l.leaf_count(),
            (None, Some(r)) => r.leaf_count(),
            (Some(l), Some(r)) => l.leaf_count() + r.leaf_count(),
        }
    }

    /// The number of terminator leaves in the tree.
    pub open spec fn terminator_count(self) -> nat
        decreases self,
    {
        match (self.left, self.right) {
            (None, None) => if self.entry == GrammarType::OPERATION(Operations::TERMINATOR) {
                1nat
            } else {
                0nat
            },
            (Some(l), None) => l.terminator_count(),
            (None, Some(r)) => r.terminator_count(),
            (Some(l), Some(r)) => l.terminator_count() + r.terminator_count(),
        }
    }

    /// The tag of the `i`-th leaf in left-to-right order.
    pub open spec fn leaf_entry(self, i: int) -> GrammarType
        decreases self,
    {
        match (self.left, self.right) {
            (None, None) => self.entry,
            (Some(l), None) => l.leaf_entry(i),
            (None, Some(r)) => r.leaf_entry(i),
            (Some(l), Some(r)) => if i < l.leaf_count() {
                l.leaf_entry(i)
            } else {
                r.leaf_entry(i - l.leaf_count())
            },
        }
    }

    /// Whether the rightmost leaf of the tree is the terminator.
    pub open spec fn ends_with_terminator(self) -> bool {
        self.leaf_entry(self.leaf_count() - 1) == GrammarType::OPERATION(Operations::TERMINATOR)
    }

    /// A tree as the parser hands it on: structurally valid, with exactly one
    /// terminator leaf, standing rightmost.
    pub open spec fn pipeline_wf(self) -> bool {
        &&& self.wf()
        &&& self.terminator_count() == 1
        &&& self.ends_with_terminator()
    }

    /// Decides structural validity, for callers that hold a tree of unknown
    /// provenance.
    pub fn check_wf(&self) -> (r: bool)
        ensures
            r == self.wf(),
        decreases *self,
    {
        match &self.entry {
            GrammarType::CHAR(_) => self.left.is_none() && self.right.is_none(),
            GrammarType::OPERATION(Operations::TERMINATOR) => self.left.is_none()
                && self.right.is_none(),
            GrammarType::OPERATION(Operations::REPETITION) => match (&self.left, &self.right) {
                (Some(l), None) => l.check_wf(),
                _ => false,
            },
            GrammarType::OPERATION(Operations::OR) => match (&self.left, &self.right) {
                (Some(l), Some(r)) => l.check_wf() && r.check_wf(),
                _ => false,
            },
            GrammarType::OPERATION(Operations::CONCAT) => match (&self.left, &self.right) {
                (Some(l), Some(r)) => l.check_wf() && r.check_wf(),
                _ => false,
            },
            _ => false,
        }
    }

    /// Counts the leaves, or reports that the count does not fit the machine.
    pub fn count_leaves(&self) -> (r: Option<usize>)
        ensures
            match r {
                Some(n) => n == self.leaf_count(),
                None => self.leaf_count() > usize::MAX,
            },
        decreases *self,
    {
        match (&self.left, &self.right) {
            (None, None) => Some(1),
            (Some(l), None) => l.count_leaves(),
            (None, Some(r)) => r.count_leaves(),
            (Some(l), Some(r)) => match (l.count_leaves(), r.count_leaves()) {
                (Some(a), Some(b)) => a.checked_add(b),
                _ => None,
            },
        }
    }
}

} // verus!
