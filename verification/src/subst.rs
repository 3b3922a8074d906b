//! Variable substitution: rewriting the references to variables in a command
//! line into the values of the variables.

use crate::text::{
    from_chars, has_prefix, has_substring, lemma_replaced_without_occurrence, replace, replaced,
    to_chars,
};
use vstd::prelude::*;

verus! {

/// The reference `$NAME` to the variable `name`.
pub open spec fn plain_reference(name: Seq<char>) -> Seq<char> {
    seq!['$'] + name
}

/// The reference `$(NAME)` to the variable `name`.
pub open spec fn round_reference(name: Seq<char>) -> Seq<char> {
    seq!['$', '('] + name + seq![')']
}

/// The reference `${NAME}` to the variable `name`.
pub open spec fn curly_reference(name: Seq<char>) -> Seq<char> {
    seq!['$', '{'] + name + seq!['}']
}

/// `command` with the references to one variable replaced by its value: first
/// every `$NAME`, then in the result every `$(NAME)`, then every `${NAME}`.
pub open spec fn with_value(command: Seq<char>, name: Seq<char>, value: Seq<char>) -> Seq<char> {
    replaced(
        replaced(replaced(command, plain_reference(name), value), round_reference(name), value),
        curly_reference(name),
        value,
    )
}

/// `command` after the variables `variables` were substituted one after the
/// other, in the order of their definition.  Each step works on the text that
/// the step before it left.
pub open spec fn substituted(command: Seq<char>, variables: Seq<(Seq<char>, Seq<char>)>) -> Seq<
    char,
>
    decreases variables.len(),
{
    if variables.len() == 0 {
        command
    } else {
        with_value(
            substituted(command, variables.drop_last()),
            variables.last().0,
            variables.last().1,
        )
    }
}

/// A pattern that begins with `$` does not occur in a text without `$`.
proof fn lemma_reference_needs_dollar(text: Seq<char>, pattern: Seq<char>)
    requires
        !text.contains('$'),
        pattern.len() > 0,
        pattern[0] == '$',
    ensures
        !has_substring(text, pattern),
{
    if has_substring(text, pattern) {
        let i = choose|i: int| 0 <= i <= text.len() && #[trigger] has_prefix(text.skip(i), pattern);
        let rest = text.skip(i);
        assert(rest.take(pattern.len() as int)[0] == pattern[0]);
        assert(text[i] == '$');
    }
}

/// A command line without `$` refers to no variable: substitution leaves it
/// as it is, whatever the variables are.
pub proof fn lemma_substituted_without_dollar(
    command: Seq<char>,
    variables: Seq<(Seq<char>, Seq<char>)>,
)
    requires
        !command.contains('$'),
    ensures
        substituted(command, variables) == command,
    decreases variables.len(),
{
    if variables.len() > 0 {
        lemma_substituted_without_dollar(command, variables.drop_last());
        let name = variables.last().0;
        let value = variables.last().1;
        lemma_reference_needs_dollar(command, plain_reference(name));
        lemma_reference_needs_dollar(command, round_reference(name));
        lemma_reference_needs_dollar(command, curly_reference(name));
        lemma_replaced_without_occurrence(command, plain_reference(name), value);
        lemma_replaced_without_occurrence(command, round_reference(name), value);
        lemma_replaced_without_occurrence(command, curly_reference(name), value);
    }
}

/// Without variables nothing is substituted.
pub proof fn lemma_substituted_without_variables(command: Seq<char>)
    ensures
        substituted(command, Seq::empty()) == command,
{
}

/// Replaces the three forms of reference to the variable `name` in `command`
/// by `value`.
pub fn set_variable(command: &[char], name: &[char], value: &[char]) -> (r: Vec<char>)
    ensures
        r@ == with_value(command@, name@, value@),
{
    let mut plain: Vec<char> = Vec::new();
    plain.push('$');
    plain.extend_from_slice(name);
    assert(plain@ =~= plain_reference(name@));
    let mut round: Vec<char> = Vec::new();
    round.push('$');
    round.push('(');
    round.extend_from_slice(name);
    round.push(')');
    assert(round@ =~= round_reference(name@));
    let mut curly: Vec<char> = Vec::new();
    curly.push('$');
    curly.push('{');
    curly.extend_from_slice(name);
    curly.push('}');
    assert(curly@ =~= curly_reference(name@));
    let first = replace(command, plain.as_slice(), value);
    let second = replace(first.as_slice(), round.as_slice(), value);
    replace(second.as_slice(), curly.as_slice(), value)
}

/// The command line to run for `command`: the references to the variables
/// `variables` are replaced by their values.  References to other names stay
/// as they are.
pub fn set_variables(command: &str, variables: &[(String, String)]) -> (r: String)
    ensures
        r@ == substituted(command@, variables.deep_view()),
{
    let mut current = to_chars(command);
    let mut i: usize = 0;
    while i < variables.len()
        invariant
            i <= variables.len(),
            current@ == substituted(command@, variables.deep_view().take(i as int)),
        decreases variables.len() - i,
    {
        let name = to_chars(variables[i].0.as_str());
        let value = to_chars(variables[i].1.as_str());
        proof {
            let done = variables.deep_view().take(i + 1);
            assert(done.drop_last() == variables.deep_view().take(i as int));
            assert(done.last() == (name@, value@));
        }
        current = set_variable(current.as_slice(), name.as_slice(), value.as_slice());
        i += 1;
    }
    assert(variables.deep_view().take(i as int) == variables.deep_view());
    from_chars(current.as_slice())
}

} // verus!
