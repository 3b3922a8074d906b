//! The in-memory model of a rule file: variables, rules and the sources that
//! are still to be merged in.

use crate::text::{first_index, lemma_first_index, lemma_first_index_is};
use vstd::prelude::*;

verus! {

/// A target, what it depends on, and the commands that realize it.
#[derive(Debug, PartialEq, Eq)]
pub struct Rule {
    pub target: String,
    pub dependencies: Vec<String>,
    pub recipe: Vec<String>,
}

/// The mathematical value of a [`Rule`].
pub struct RuleView {
    pub target: Seq<char>,
    pub dependencies: Seq<Seq<char>>,
    pub recipe: Seq<Seq<char>>,
}

impl View for Rule {
    type V = RuleView;

    open spec fn view(&self) -> RuleView {
        RuleView {
            target: self.target@,
            dependencies: self.dependencies.deep_view(),
            recipe: self.recipe.deep_view(),
        }
    }
}

/// Everything that was read so far: the variables in the order of their
/// definition, the rules in the order of their declaration, and the references
/// to further sources that have not been read yet.
///
/// Neither variable names nor targets are unique.
#[derive(Debug, PartialEq, Eq)]
pub struct Bakefile {
    pub variables: Vec<(String, String)>,
    pub rules: Vec<Rule>,
    pub includes: Vec<String>,
}

/// The mathematical value of a [`Bakefile`].
pub struct BakefileView {
    pub variables: Seq<(Seq<char>, Seq<char>)>,
    pub rules: Seq<RuleView>,
    pub includes: Seq<Seq<char>>,
}

/// The values of the rules `rules`.
pub open spec fn rule_views(rules: Seq<Rule>) -> Seq<RuleView> {
    rules.map_values(|r: Rule| r@)
}

impl View for Bakefile {
    type V = BakefileView;

    open spec fn view(&self) -> BakefileView {
        BakefileView {
            variables: self.variables.deep_view(),
            rules: rule_views(self.rules@),
            includes: self.includes.deep_view(),
        }
    }
}

/// The model that holds nothing.
pub open spec fn empty_model() -> BakefileView {
    BakefileView { variables: Seq::empty(), rules: Seq::empty(), includes: Seq::empty() }
}

/// The targets of `rules`, in order.
pub open spec fn targets(rules: Seq<RuleView>) -> Seq<Seq<char>> {
    rules.map_values(|r: RuleView| r.target)
}

/// Index of the first rule among `rules` whose target is `target`.
pub open spec fn rule_index(rules: Seq<RuleView>, target: Seq<char>) -> Option<int> {
    let i = first_index(targets(rules), target);
    if i < rules.len() {
        Some(i)
    } else {
        None
    }
}

/// [`rule_index`] finds a rule with the target asked for, before which no rule
/// has that target; it finds none only where no rule has it.
pub proof fn lemma_rule_index(rules: Seq<RuleView>, target: Seq<char>)
    ensures
        match rule_index(rules, target) {
            Some(i) => 0 <= i < rules.len() && rules[i].target == target && forall|j: int|
                0 <= j < i ==> (#[trigger] rules[j]).target != target,
            None => forall|j: int| 0 <= j < rules.len() ==> (#[trigger] rules[j]).target != target,
        },
{
    let ts = targets(rules);
    lemma_first_index(ts, target);
    let i = first_index(ts, target);
    assert forall|j: int| 0 <= j < i && j < rules.len() implies (#[trigger] rules[j]).target
        != target by {
        assert(ts[j] == rules[j].target);
    }
}

impl Bakefile {
    /// A model that holds nothing.
    pub fn new() -> (b: Bakefile)
        ensures
            b@ == empty_model(),
    {
        let b = Bakefile { variables: Vec::new(), rules: Vec::new(), includes: Vec::new() };
        assert(b.variables.deep_view() =~= Seq::empty());
        assert(b.includes.deep_view() =~= Seq::empty());
        assert(rule_views(b.rules@) =~= Seq::empty());
        b
    }
}

/// Position of the first rule of `rules` whose target is `target`.
pub fn find_rule(rules: &Vec<Rule>, target: &str) -> (r: Option<usize>)
    ensures
        match r {
            Some(i) => rule_index(rule_views(rules@), target@) == Some(i as int),
            None => rule_index(rule_views(rules@), target@) is None,
        },
{
    let wanted = target.to_owned();
    let mut i: usize = 0;
    while i < rules.len() && rules[i].target != wanted
        invariant
            i <= rules.len(),
            wanted@ == target@,
            forall|j: int| 0 <= j < i ==> (#[trigger] rules@[j]).target@ != target@,
        decreases rules.len() - i,
    {
        i += 1;
    }
    proof {
        let ts = targets(rule_views(rules@));
        assert forall|j: int| 0 <= j < i implies #[trigger] ts[j] != target@ by {
            assert(ts[j] == rules@[j].target@);
        }
        if i < rules.len() {
            assert(ts[i as int] == rules@[i as int].target@);
        }
        lemma_first_index_is(ts, target@, i as int);
    }
    if i < rules.len() {
        Some(i)
    } else {
        None
    }
}

/// The first rule of `bakefile` whose target is `target`, if there is one.
pub fn get_rule<'a>(bakefile: &'a Bakefile, target: &str) -> (r: Option<&'a Rule>)
    ensures
        match r {
            Some(rule) => rule_index(bakefile@.rules, target@) matches Some(i)
                && *rule == bakefile.rules@[i],
            None => rule_index(bakefile@.rules, target@) is None,
        },
{
    match find_rule(&bakefile.rules, target) {
        Some(i) => Some(&bakefile.rules[i]),
        None => None,
    }
}

} // verus!
