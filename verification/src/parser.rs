//! The rule-file parser: one forward pass over the lines of a text, which adds
//! what it finds to a model.

use crate::model::{
    empty_model, find_rule, lemma_rule_index, rule_index, rule_views, targets, Bakefile,
    BakefileView, Rule, RuleView,
};
use crate::text::{
    from_chars, lemma_first_index_is, lines, slice_views, split_at_first, split_lines, split_once,
    split_whitespace, to_chars, trim, trimmed, words,
};
use vstd::prelude::*;

verus! {

/// The header that indented lines belong to.
#[derive(Debug, PartialEq, Eq)]
pub enum Header {
    /// No header was read yet.
    Closed,
    /// The last header opened a list of further sources.
    Including,
    /// The last header declared a rule with this target.
    Rule(String),
}

/// The mathematical value of a [`Header`].
pub enum HeaderView {
    Closed,
    Including,
    Rule(Seq<char>),
}

impl View for Header {
    type V = HeaderView;

    open spec fn view(&self) -> HeaderView {
        match self {
            Header::Closed => HeaderView::Closed,
            Header::Including => HeaderView::Including,
            Header::Rule(target) => HeaderView::Rule(target@),
        }
    }
}

/// The name of the header that opens a list of further sources.
pub open spec fn include_keyword() -> Seq<char> {
    seq!['i', 'n', 'c', 'l', 'u', 'd', 'e']
}

/// Lines that are empty or begin with `#` say nothing.
pub open spec fn is_ignored(line: Seq<char>) -> bool {
    line.len() == 0 || line[0] == '#'
}

/// Lines that begin with a space or a tab belong to the open header.
pub open spec fn is_indented(line: Seq<char>) -> bool {
    line.len() > 0 && (line[0] == ' ' || line[0] == '\t')
}

/// `variables` after the assignment `line`: the trimmed texts before and after
/// its first `=` are added as a new last entry.  A line without `=` adds
/// nothing.
pub open spec fn with_variable(variables: Seq<(Seq<char>, Seq<char>)>, line: Seq<char>) -> Seq<
    (Seq<char>, Seq<char>),
> {
    match split_at_first(line, '=') {
        Some((name, value)) => variables.push((trimmed(name), trimmed(value))),
        None => variables,
    }
}

/// `rules` after the trimmed `line` was added to the recipe of the first rule
/// whose target is `target`.  Where no rule has that target nothing changes.
pub open spec fn with_recipe_line(rules: Seq<RuleView>, line: Seq<char>, target: Seq<char>) -> Seq<
    RuleView,
> {
    match rule_index(rules, target) {
        Some(i) => rules.update(
            i,
            RuleView { recipe: rules[i].recipe.push(trimmed(line)), ..rules[i] },
        ),
        None => rules,
    }
}

/// The rule that the header `target: dependencies` declares.
pub open spec fn declared_rule(target: Seq<char>, dependencies: Seq<char>) -> RuleView {
    RuleView {
        target: trimmed(target),
        dependencies: words(dependencies),
        recipe: Seq::empty(),
    }
}

/// The model and the open header after one more line.
///
/// A line is classified once, by the first of these that fits: ignored;
/// indented, and so content of the open header; holding `:`, and so a header;
/// holding `=`, and so an assignment; anything else says nothing.
pub open spec fn after_line(model: BakefileView, open: HeaderView, line: Seq<char>) -> (
    BakefileView,
    HeaderView,
) {
    if is_ignored(line) {
        (model, open)
    } else if is_indented(line) {
        match open {
            HeaderView::Closed => (model, open),
            HeaderView::Including => (
                BakefileView { includes: model.includes.push(trimmed(line)), ..model },
                open,
            ),
            HeaderView::Rule(target) => (
                BakefileView { rules: with_recipe_line(model.rules, line, target), ..model },
                open,
            ),
        }
    } else if let Some((target, dependencies)) = split_at_first(line, ':') {
        if trimmed(target) == include_keyword() {
            (model, HeaderView::Including)
        } else {
            (
                BakefileView {
                    rules: model.rules.push(declared_rule(target, dependencies)),
                    ..model
                },
                HeaderView::Rule(trimmed(target)),
            )
        }
    } else {
        (BakefileView { variables: with_variable(model.variables, line), ..model }, open)
    }
}

/// The model and the open header after the lines `lines`, taken in order.
pub open spec fn after_lines(model: BakefileView, open: HeaderView, lines: Seq<Seq<char>>) -> (
    BakefileView,
    HeaderView,
)
    decreases lines.len(),
{
    if lines.len() == 0 {
        (model, open)
    } else {
        let (m, o) = after_lines(model, open, lines.drop_last());
        after_line(m, o, lines.last())
    }
}

/// The model after the whole of `text` was read into `model`.  No header is
/// open when a text begins.
pub open spec fn after_text(model: BakefileView, text: Seq<char>) -> BakefileView {
    after_lines(model, HeaderView::Closed, lines(text)).0
}

/// Adds the variable that `line` assigns, if it assigns one.
pub fn store_variable(variables: &mut Vec<(String, String)>, line: &str)
    ensures
        final(variables).deep_view() == with_variable(old(variables).deep_view(), line@),
{
    let chars = to_chars(line);
    store_variable_chars(variables, chars.as_slice());
}

/// [`store_variable`] on a line that is at hand as characters.
pub fn store_variable_chars(variables: &mut Vec<(String, String)>, line: &[char])
    ensures
        final(variables).deep_view() == with_variable(old(variables).deep_view(), line@),
{
    match split_once(line, '=') {
        Some((name, value)) => {
            let entry = (from_chars(trim(name)), from_chars(trim(value)));
            let ghost before = variables.deep_view();
            variables.push(entry);
            assert(variables.deep_view() =~= before.push((trimmed(name@), trimmed(value@))));
        },
        None => {},
    }
}

/// Adds `line`, trimmed, to the recipe of the first rule whose target is
/// `target`.
pub fn store_recipe(rules: &mut Vec<Rule>, line: &str, target: &str)
    ensures
        rule_views(final(rules)@) == with_recipe_line(rule_views(old(rules)@), line@, target@),
{
    let chars = to_chars(line);
    store_recipe_chars(rules, chars.as_slice(), target);
}

/// [`store_recipe`] on a line that is at hand as characters.
pub fn store_recipe_chars(rules: &mut Vec<Rule>, line: &[char], target: &str)
    ensures
        rule_views(final(rules)@) == with_recipe_line(rule_views(old(rules)@), line@, target@),
{
    match find_rule(rules, target) {
        Some(i) => {
            let command = from_chars(trim(line));
            let ghost before = rule_views(rules@);
            let ghost recipe = rules@[i as int].recipe.deep_view();
            rules[i].recipe.push(command);
            assert(rules@[i as int].recipe.deep_view() =~= recipe.push(trimmed(line@)));
            assert(rule_views(rules@) =~= before.update(
                i as int,
                RuleView { recipe: recipe.push(trimmed(line@)), ..before[i as int] },
            ));
        },
        None => {},
    }
}

/// Whether `name` is the name of the header that opens a list of further
/// sources.
pub fn is_include_keyword(name: &[char]) -> (b: bool)
    ensures
        b == (name@ == include_keyword()),
{
    let b = name.len() == 7 && name[0] == 'i' && name[1] == 'n' && name[2] == 'c' && name[3]
        == 'l' && name[4] == 'u' && name[5] == 'd' && name[6] == 'e';
    assert(b ==> name@ =~= include_keyword());
    b
}

/// Reads one line into `bakefile` and returns the header that is open after
/// it.
pub fn read_line(bakefile: &mut Bakefile, open: Header, line: &[char]) -> (next: Header)
    ensures
        (final(bakefile)@, next@) == after_line(old(bakefile)@, open@, line@),
{
    if line.len() == 0 || line[0] == '#' {
        return open;
    }
    if line[0] == ' ' || line[0] == '\t' {
        match &open {
            Header::Closed => {},
            Header::Including => {
                let reference = from_chars(trim(line));
                let ghost before = bakefile.includes.deep_view();
                bakefile.includes.push(reference);
                assert(bakefile.includes.deep_view() =~= before.push(trimmed(line@)));
            },
            Header::Rule(target) => {
                store_recipe_chars(&mut bakefile.rules, line, target.as_str());
            },
        }
        return open;
    }
    match split_once(line, ':') {
        Some((target, dependencies)) => {
            let name = trim(target);
            if is_include_keyword(name) {
                Header::Including
            } else {
                let rule = Rule {
                    target: from_chars(name),
                    dependencies: split_whitespace(dependencies),
                    recipe: Vec::new(),
                };
                assert(rule.recipe.deep_view() =~= Seq::empty());
                let ghost before = rule_views(bakefile.rules@);
                bakefile.rules.push(rule);
                assert(rule_views(bakefile.rules@) =~= before.push(
                    declared_rule(target@, dependencies@),
                ));
                Header::Rule(from_chars(name))
            }
        },
        None => {
            store_variable_chars(&mut bakefile.variables, line);
            open
        },
    }
}

/// Reads the whole of `content` into `bakefile`: its variables, rules and
/// references to further sources are added behind those that `bakefile` holds.
pub fn populate_bakefile(bakefile: &mut Bakefile, content: &str)
    ensures
        final(bakefile)@ == after_text(old(bakefile)@, content@),
{
    let chars = to_chars(content);
    let all = split_lines(chars.as_slice());
    let ghost start = bakefile@;
    let mut open = Header::Closed;
    let mut k: usize = 0;
    while k < all.len()
        invariant
            k <= all.len(),
            slice_views(all@) == lines(content@),
            (bakefile@, open@) == after_lines(
                start,
                HeaderView::Closed,
                lines(content@).take(k as int),
            ),
        decreases all.len() - k,
    {
        open = read_line(bakefile, open, all[k]);
        proof {
            let read = lines(content@).take(k + 1);
            assert(read.drop_last() == lines(content@).take(k as int));
            assert(read.last() == slice_views(all@)[k as int]);
        }
        k += 1;
    }
    assert(lines(content@).take(k as int) == lines(content@));
}

/// What the headers of `rules` declare: each target with its dependencies.
pub open spec fn declarations(rules: Seq<RuleView>) -> Seq<(Seq<char>, Seq<Seq<char>>)> {
    rules.map_values(|r: RuleView| (r.target, r.dependencies))
}

/// Whether the model `grown` holds all of `model` and, behind it, what the
/// model `alone` holds: the variables and references of `alone` follow those
/// of `model`, and so do the declarations of its rules.  A rule of `model`
/// stands where it stood and has lost no line of its recipe.
pub open spec fn merges(grown: BakefileView, model: BakefileView, alone: BakefileView) -> bool {
    &&& grown.variables == model.variables + alone.variables
    &&& grown.includes == model.includes + alone.includes
    &&& declarations(grown.rules) == declarations(model.rules) + declarations(alone.rules)
    &&& forall|i: int|
        0 <= i < model.rules.len() ==> model.rules[i].recipe.is_prefix_of(
            (#[trigger] grown.rules[i]).recipe,
        )
}

/// Adding a line to a recipe changes no declaration and shortens no recipe.
proof fn lemma_with_recipe_line_keeps(rules: Seq<RuleView>, line: Seq<char>, target: Seq<char>)
    ensures
        declarations(with_recipe_line(rules, line, target)) == declarations(rules),
        with_recipe_line(rules, line, target).len() == rules.len(),
        forall|i: int|
            0 <= i < rules.len() ==> rules[i].recipe.is_prefix_of(
                (#[trigger] with_recipe_line(rules, line, target)[i]).recipe,
            ),
{
    lemma_rule_index(rules, target);
    assert(declarations(with_recipe_line(rules, line, target)) =~= declarations(rules));
}

/// One line keeps [`merges`]: what it adds to a model is added behind what the
/// model held, and which header is open after it does not depend on the model.
proof fn lemma_after_line_merges(
    grown: BakefileView,
    model: BakefileView,
    alone: BakefileView,
    open: HeaderView,
    line: Seq<char>,
)
    requires
        merges(grown, model, alone),
    ensures
        merges(after_line(grown, open, line).0, model, after_line(alone, open, line).0),
        after_line(grown, open, line).1 == after_line(alone, open, line).1,
{
    let g = after_line(grown, open, line).0;
    let a = after_line(alone, open, line).0;
    assert(declarations(grown.rules).len() == declarations(model.rules).len() + declarations(
        alone.rules,
    ).len());
    if is_ignored(line) {
    } else if is_indented(line) {
        match open {
            HeaderView::Closed => {},
            HeaderView::Including => {
                assert(g.includes =~= model.includes + a.includes);
            },
            HeaderView::Rule(target) => {
                lemma_with_recipe_line_keeps(grown.rules, line, target);
                lemma_with_recipe_line_keeps(alone.rules, line, target);
                assert forall|i: int| 0 <= i < model.rules.len() implies model.rules[i].recipe.is_prefix_of(
                (#[trigger] g.rules[i]).recipe) by {
                    let was = grown.rules[i].recipe;
                    assert(model.rules[i].recipe.is_prefix_of(was));
                    assert(was.is_prefix_of(g.rules[i].recipe));
                }
            },
        }
    } else if let Some((target, dependencies)) = split_at_first(line, ':') {
        if trimmed(target) == include_keyword() {
        } else {
            let rule = declared_rule(target, dependencies);
            assert(declarations(g.rules) =~= declarations(grown.rules).push(
                (rule.target, rule.dependencies),
            ));
            assert(declarations(a.rules) =~= declarations(alone.rules).push(
                (rule.target, rule.dependencies),
            ));
            assert(declarations(g.rules) =~= declarations(model.rules) + declarations(a.rules));
            assert forall|i: int| 0 <= i < model.rules.len() implies model.rules[i].recipe.is_prefix_of(
            (#[trigger] g.rules[i]).recipe) by {
                assert(g.rules[i] == grown.rules[i]);
            }
        }
    } else {
        assert(g.variables =~= model.variables + a.variables);
    }
}

/// [`lemma_after_line_merges`] for a sequence of lines.
proof fn lemma_after_lines_merges(model: BakefileView, open: HeaderView, lines: Seq<Seq<char>>)
    ensures
        merges(
            after_lines(model, open, lines).0,
            model,
            after_lines(empty_model(), open, lines).0,
        ),
        after_lines(model, open, lines).1 == after_lines(empty_model(), open, lines).1,
    decreases lines.len(),
{
    if lines.len() == 0 {
        assert(model.variables + empty_model().variables =~= model.variables);
        assert(model.includes + empty_model().includes =~= model.includes);
        assert(declarations(model.rules) + declarations(empty_model().rules) =~= declarations(
            model.rules,
        ));
    } else {
        lemma_after_lines_merges(model, open, lines.drop_last());
        let (grown, header) = after_lines(model, open, lines.drop_last());
        let (alone, _) = after_lines(empty_model(), open, lines.drop_last());
        lemma_after_line_merges(grown, model, alone, header, lines.last());
    }
}

/// Reading a text into a model merges the two: the model afterwards holds
/// what it held before and, behind that, what the text alone gives.  So the
/// variables of every source that was read are at hand for every recipe,
/// whichever source declares it.
pub proof fn lemma_after_text_merges(model: BakefileView, text: Seq<char>)
    ensures
        merges(after_text(model, text), model, after_text(empty_model(), text)),
{
    lemma_after_lines_merges(model, HeaderView::Closed, lines(text));
}

/// A target that a model has a rule for keeps that rule when a text is read
/// into the model: the first declaration is the one that is found.
pub proof fn lemma_after_text_keeps_first_rule(
    model: BakefileView,
    text: Seq<char>,
    target: Seq<char>,
)
    requires
        rule_index(model.rules, target) is Some,
    ensures
        rule_index(after_text(model, text).rules, target) == rule_index(model.rules, target),
{
    lemma_after_text_merges(model, text);
    let grown = after_text(model, text).rules;
    let i = rule_index(model.rules, target)->0;
    lemma_rule_index(model.rules, target);
    assert(declarations(grown).len() == declarations(model.rules).len() + declarations(
        after_text(empty_model(), text).rules,
    ).len());
    assert forall|j: int| 0 <= j < model.rules.len() implies (#[trigger] targets(grown)[j])
        == model.rules[j].target by {
        assert(declarations(grown)[j] == declarations(model.rules)[j]);
    }
    assert forall|j: int| 0 <= j < i implies #[trigger] targets(grown)[j] != target by {
        assert(model.rules[j].target != target);
    }
    assert(targets(grown)[i] == target);
    lemma_first_index_is(targets(grown), target, i);
}

} // verus!
