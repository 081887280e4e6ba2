//! Pattern preprocessing and validation: rejecting reserved characters and
//! doubled operators, appending the terminator, and inserting explicit
//! concatenation markers so that the parser is plain LL(1).

use vstd::prelude::*;

use crate::syntax_tree::{spec_op_of_char, Operations, SyntaxError};

verus! {

/// Whether the character at position `i` is escaped, that is, preceded by an
/// escape marker that is itself live (not escaped).
pub open spec fn is_escaped(s: Seq<char>, i: int) -> bool
    decreases i,
{
    if i <= 0 {
        false
    } else {
        s[i - 1] == '\\' && !is_escaped(s, i - 1)
    }
}

/// A reserved character (terminator or explicit-concat marker) occurs
/// unescaped somewhere in the pattern.
pub open spec fn has_forbidden_char(s: Seq<char>) -> bool {
    exists|i: int|
        0 <= i < s.len() && (s[i] == '#' || s[i] == '.') && !is_escaped(s, i)
}

/// A doubled `|` or doubled `*` operator: two adjacent unescaped occurrences.
pub open spec fn has_repeated_op(s: Seq<char>) -> bool {
    exists|i: int|
        0 <= i && i + 1 < s.len() && (s[i] == '|' || s[i] == '*') && s[i] == s[i + 1] && !(
        #[trigger] is_escaped(s, i)) && !is_escaped(s, i + 1)
}

/// A token that can end an operand: a literal character (escaped or plain), a
/// closing bracket, or a completed repetition.
pub open spec fn unit_end(c: char, escaped: bool) -> bool {
    escaped || spec_op_of_char(c) is None || c == ')' || c == '*'
}

/// A token that can start an operand: a literal character, an opening
/// bracket, an escape marker, or the terminator.
pub open spec fn unit_start(c: char) -> bool {
    spec_op_of_char(c) is None || c == '(' || c == '\\' || c == '#'
}

/// The concat-insertion pass over `s`, starting at position `i` with escape
/// state `esc`: every character is kept, and an explicit concat marker is
/// inserted between an operand-ending token and an operand-starting one.
pub open spec fn spec_extend_from(s: Seq<char>, i: int, esc: bool) -> Seq<char>
    decreases s.len() - i,
{
    if i < 0 || i >= s.len() {
        Seq::<char>::empty()
    } else {
        let c = s[i];
        if !esc && c == '\\' {
            seq![c] + spec_extend_from(s, i + 1, true)
        } else {
            let insert = unit_end(c, esc) && i + 1 < s.len() && unit_start(s[i + 1]);
            if insert {
                seq![c, '.'] + spec_extend_from(s, i + 1, false)
            } else {
                seq![c] + spec_extend_from(s, i + 1, false)
            }
        }
    }
}

/// The concat-insertion pass over a text, whole.
pub open spec fn spec_insert_markers(s: Seq<char>) -> Seq<char> {
    spec_extend_from(s, 0, false)
}

/// The full preprocessing of a pattern: append the terminator, then insert
/// explicit concat markers. The output is the input with dots inserted and
/// one terminator appended: nothing is removed or reordered.
pub open spec fn spec_preprocess(s: Seq<char>) -> Seq<char> {
    spec_extend_from(s + seq!['#'], 0, false)
}

proof fn lemma_extend_with_terminator(s: Seq<char>, i: int, esc: bool)
    requires
        0 <= i <= s.len(),
    ensures
        spec_extend_from(s + seq!['#'], i, esc) =~= spec_extend_from(s, i, esc) + seq!['#']
            || spec_extend_from(s + seq!['#'], i, esc) =~= spec_extend_from(s, i, esc) + seq![
            '.',
            '#',
        ],
    decreases s.len() - i,
{
    let t = s + seq!['#'];
    if i == s.len() {
        assert(t[i] == '#');
        assert(spec_extend_from(t, i + 1, false) =~= Seq::<char>::empty());
        assert(spec_extend_from(t, i, esc) =~= seq!['#'] + spec_extend_from(t, i + 1, false));
        assert(spec_extend_from(t, i, esc) =~= seq!['#']);
        assert(spec_extend_from(s, i, esc) =~= Seq::<char>::empty());
    } else {
        assert(t[i] == s[i]);
        let c = s[i];
        if !esc && c == '\\' {
            lemma_extend_with_terminator(s, i + 1, true);
        } else {
            lemma_extend_with_terminator(s, i + 1, false);
            if i + 1 < s.len() {
                assert(t[i + 1] == s[i + 1]);
            } else {
                assert(t[i + 1] == '#');
                assert(unit_start('#'));
                assert(spec_extend_from(s, i + 1, false) =~= Seq::<char>::empty());
            }
        }
    }
}

/// How the preprocessed text relates to what the tree parser reads: the
/// preprocessed text is the marker-inserted pattern with the terminator
/// appended, preceded by one more concat marker exactly when the pattern's
/// last token ends an operand. The parser works on the bare pattern, inserts
/// the same markers itself, and attaches the terminator as a tree node rather
/// than as a character; the preprocessed text, which spells the terminator
/// out, is therefore a rendering of the pattern, not itself an accepted one.
pub proof fn lemma_preprocess_extends_markers(s: Seq<char>)
    ensures
        spec_preprocess(s) == spec_insert_markers(s) + seq!['#'] || spec_preprocess(s)
            == spec_insert_markers(s) + seq!['.', '#'],
{
    lemma_extend_with_terminator(s, 0, false);
}

/// Runs the concat-insertion pass over a text.
pub(crate) fn apply_insertion(s: &Vec<char>) -> (r: Vec<char>)
    ensures
        r@ == spec_insert_markers(s@),
{
    let ghost full = s@;
    let mut result: Vec<char> = Vec::new();
    let mut i: usize = 0;
    let mut esc: bool = false;
    while i < s.len()
        invariant
            0 <= i <= s.len(),
            s@ == full,
            result@ + spec_extend_from(full, i as int, esc) == spec_extend_from(full, 0, false),
        decreases s.len() - i,
    {
        let c = s[i];
        if !esc && c == '\\' {
            result.push(c);
            esc = true;
        } else {
            let was_esc = esc;
            result.push(c);
            esc = false;
            let end_here = was_esc || Operations::from_char(&c).is_none() || c == ')' || c == '*';
            if end_here && i + 1 < s.len() {
                let d = s[i + 1];
                if Operations::from_char(&d).is_none() || d == '(' || d == '\\' || d == '#' {
                    result.push('.');
                }
            }
        }
        i += 1;
    }
    result
}

/// Appends the terminator to the pattern and inserts the explicit-concat
/// marker between any two adjacent operand tokens, leaving operators that
/// still expect an operand alone.
pub fn extend_concat_op(regex: &Vec<char>) -> (r: Vec<char>)
    ensures
        r@ == spec_preprocess(regex@),
{
    let mut s: Vec<char> = Vec::new();
    let mut k: usize = 0;
    while k < regex.len()
        invariant
            0 <= k <= regex.len(),
            s@ == regex@.subrange(0, k as int),
        decreases regex.len() - k,
    {
        s.push(regex[k]);
        k += 1;
    }
    s.push('#');
    assert(s@ == regex@ + seq!['#']);
    apply_insertion(&s)
}

/// Rejects a pattern in which a reserved character (the terminator `#` or the
/// explicit-concat marker `.`) occurs unescaped.
pub fn validate_forbidden_chars(regex: &Vec<char>) -> (r: Result<(), SyntaxError>)
    ensures
        r is Ok <==> !has_forbidden_char(regex@),
        r is Err ==> r == Result::<(), SyntaxError>::Err(SyntaxError::ForbiddenSymbol),
{
    let mut i: usize = 0;
    let mut esc: bool = false;
    while i < regex.len()
        invariant
            0 <= i <= regex.len(),
            esc == is_escaped(regex@, i as int),
            forall|j: int|
                0 <= j < i ==> !((regex@[j] == '#' || regex@[j] == '.') && !is_escaped(regex@, j)),
        decreases regex.len() - i,
    {
        let c = regex[i];
        if (c == '#' || c == '.') && !esc {
            return Err(SyntaxError::ForbiddenSymbol);
        }
        esc = c == '\\' && !esc;
        i += 1;
    }
    Ok(())
}

/// Rejects a pattern holding a doubled union or doubled repetition operator
/// (two adjacent unescaped `|` or `*`).
pub fn validate_repeated_op(regex: &Vec<char>) -> (r: Result<(), SyntaxError>)
    ensures
        r is Ok <==> !has_repeated_op(regex@),
        r is Err ==> r == Result::<(), SyntaxError>::Err(SyntaxError::RepeatedOperator),
{
    let mut i: usize = 0;
    let mut esc: bool = false;
    while i + 1 < regex.len()
        invariant
            0 <= i,
            regex.len() > 0 ==> i <= regex.len() - 1,
            regex.len() == 0 ==> i == 0,
            esc == is_escaped(regex@, i as int),
            forall|j: int|
                0 <= j < i ==> !((regex@[j] == '|' || regex@[j] == '*') && regex@[j] == regex@[j
                    + 1] && !(#[trigger] is_escaped(regex@, j)) && !is_escaped(regex@, j + 1)),
        decreases regex.len() - i,
    {
        let c = regex[i];
        let d = regex[i + 1];
        let esc_next = c == '\\' && !esc;
        if (c == '|' || c == '*') && c == d && !esc && !esc_next {
            return Err(SyntaxError::RepeatedOperator);
        }
        esc = esc_next;
        i += 1;
    }
    Ok(())
}

/// Validates a raw pattern: no unescaped reserved character and no doubled
/// union or repetition operator.
pub fn validate_regex(regex: &Vec<char>) -> (r: Result<(), SyntaxError>)
    ensures
        r is Ok <==> (!has_forbidden_char(regex@) && !has_repeated_op(regex@)),
        r == Result::<(), SyntaxError>::Err(SyntaxError::ForbiddenSymbol) <==> has_forbidden_char(
            regex@,
        ),
        r == Result::<(), SyntaxError>::Err(SyntaxError::RepeatedOperator) <==> (
        !has_forbidden_char(regex@) && has_repeated_op(regex@)),
{
    validate_forbidden_chars(regex)?;
    validate_repeated_op(regex)?;
    Ok(())
}

} // verus!
