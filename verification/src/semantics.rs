//! What a run does, read as a recursion over the rules, and the proof that the
//! executor does exactly that.
//!
//! Realizing a target means: realize each dependency of its first rule, in
//! order, then announce the rule and run its commands.  Nothing is remembered
//! between visits, so a target that is reached twice is realized twice.  The
//! recursion need not end: a rule may depend on itself.  The functions here
//! take a bound on the depth of the recursion and describe the runs that stay
//! within it.

use crate::executor::{commands, expansion, step, visits, ActionView, ExecutorView, TaskView};
use crate::model::{lemma_rule_index, rule_index, BakefileView};
use crate::outcome::{EXIT_FAILURE, EXIT_SUCCESS};
use crate::text::words;
use vstd::prelude::*;

verus! {

/// What the caller is asked to do for a task.
pub open spec fn action_of(task: TaskView) -> ActionView {
    match task {
        TaskView::Visit(_) => ActionView::Continue,
        TaskView::Announce(target) => ActionView::Announce(target),
        TaskView::Run(line) => ActionView::Run { line, words: words(line) },
    }
}

/// What the caller is asked to do for the tasks `tasks`, none of which is a
/// visit.
pub open spec fn actions_of(tasks: Seq<TaskView>) -> Seq<ActionView> {
    tasks.map_values(|t: TaskView| action_of(t))
}

/// Whether realizing `target` ends without going more than `depth` rules
/// deep.
pub open spec fn settles(model: BakefileView, target: Seq<char>, depth: nat) -> bool
    decreases depth, 0nat,
{
    depth > 0 && match rule_index(model.rules, target) {
        None => true,
        Some(i) => all_settle(model, model.rules[i].dependencies, (depth - 1) as nat),
    }
}

/// Whether each of `targets` settles within `depth`.
pub open spec fn all_settle(model: BakefileView, targets: Seq<Seq<char>>, depth: nat) -> bool
    decreases depth, targets.len() + 1,
{
    targets.len() == 0 || (settles(model, targets[0], depth) && all_settle(
        model,
        targets.drop_first(),
        depth,
    ))
}

/// The announcements and commands of realizing `target`, in the order in
/// which they happen, as far as the recursion stays within `depth`.
pub open spec fn realization(model: BakefileView, target: Seq<char>, depth: nat) -> Seq<
    ActionView,
>
    decreases depth, 0nat,
{
    if depth == 0 {
        Seq::empty()
    } else {
        match rule_index(model.rules, target) {
            None => Seq::empty(),
            Some(i) => realization_of_all(
                model,
                model.rules[i].dependencies,
                (depth - 1) as nat,
            ) + seq![ActionView::Announce(model.rules[i].target)] + actions_of(
                commands(model.rules[i].recipe, model.variables),
            ),
        }
    }
}

/// The announcements and commands of realizing each of `targets`, one after
/// the other.
pub open spec fn realization_of_all(
    model: BakefileView,
    targets: Seq<Seq<char>>,
    depth: nat,
) -> Seq<ActionView>
    decreases depth, targets.len() + 1,
{
    if targets.len() == 0 {
        Seq::empty()
    } else {
        realization(model, targets[0], depth) + realization_of_all(
            model,
            targets.drop_first(),
            depth,
        )
    }
}

/// The number of steps that the executor takes to realize `target`.
pub open spec fn steps_for(model: BakefileView, target: Seq<char>, depth: nat) -> nat
    decreases depth, 0nat,
{
    if depth == 0 {
        0
    } else {
        match rule_index(model.rules, target) {
            None => 1,
            Some(i) => 2 + steps_for_all(model, model.rules[i].dependencies, (depth - 1) as nat)
                + commands(model.rules[i].recipe, model.variables).len(),
        }
    }
}

/// The number of steps that the executor takes to realize each of `targets`.
pub open spec fn steps_for_all(model: BakefileView, targets: Seq<Seq<char>>, depth: nat) -> nat
    decreases depth, targets.len() + 1,
{
    if targets.len() == 0 {
        0
    } else {
        steps_for(model, targets[0], depth) + steps_for_all(model, targets.drop_first(), depth)
    }
}

/// The state of a run that has `agenda` before it.
pub open spec fn running(agenda: Seq<TaskView>) -> ExecutorView {
    ExecutorView { agenda, failed: false }
}

/// The state after `steps` steps from `state`, and what the caller was asked
/// to do in them, requests to continue left out.
pub open spec fn run(model: BakefileView, state: ExecutorView, steps: nat) -> (
    ExecutorView,
    Seq<ActionView>,
)
    decreases steps,
{
    if steps == 0 {
        (state, Seq::empty())
    } else {
        let (next, action) = step(model, state);
        let (last, actions) = run(model, next, (steps - 1) as nat);
        if action is Continue {
            (last, actions)
        } else {
            (last, seq![action] + actions)
        }
    }
}

/// A target that settles within some depth settles within every greater
/// depth, with the same realization in the same number of steps.
pub proof fn lemma_depth_is_slack(model: BakefileView, target: Seq<char>, depth: nat, more: nat)
    requires
        settles(model, target, depth),
        depth <= more,
    ensures
        settles(model, target, more),
        realization(model, target, more) == realization(model, target, depth),
        steps_for(model, target, more) == steps_for(model, target, depth),
    decreases depth, 0nat,
{
    match rule_index(model.rules, target) {
        None => {},
        Some(i) => {
            lemma_depth_is_slack_for_all(
                model,
                model.rules[i].dependencies,
                (depth - 1) as nat,
                (more - 1) as nat,
            );
        },
    }
}

/// [`lemma_depth_is_slack`] for each of `targets`.
pub proof fn lemma_depth_is_slack_for_all(
    model: BakefileView,
    targets: Seq<Seq<char>>,
    depth: nat,
    more: nat,
)
    requires
        all_settle(model, targets, depth),
        depth <= more,
    ensures
        all_settle(model, targets, more),
        realization_of_all(model, targets, more) == realization_of_all(model, targets, depth),
        steps_for_all(model, targets, more) == steps_for_all(model, targets, depth),
    decreases depth, targets.len() + 1,
{
    if targets.len() > 0 {
        lemma_depth_is_slack(model, targets[0], depth, more);
        lemma_depth_is_slack_for_all(model, targets.drop_first(), depth, more);
    }
}

/// Whether every visit on `agenda` settles within `depth`.
pub open spec fn agenda_settles(model: BakefileView, agenda: Seq<TaskView>, depth: nat) -> bool
    decreases agenda.len(),
{
    agenda.len() == 0 || ((agenda[0] matches TaskView::Visit(target) ==> settles(
        model,
        target,
        depth,
    )) && agenda_settles(model, agenda.drop_first(), depth))
}

/// The announcements and commands that working off `agenda` consists of.
pub open spec fn agenda_work(model: BakefileView, agenda: Seq<TaskView>, depth: nat) -> Seq<
    ActionView,
>
    decreases agenda.len(),
{
    if agenda.len() == 0 {
        Seq::empty()
    } else {
        (match agenda[0] {
            TaskView::Visit(target) => realization(model, target, depth),
            task => seq![action_of(task)],
        }) + agenda_work(model, agenda.drop_first(), depth)
    }
}

/// The number of steps that working off `agenda` takes.
pub open spec fn agenda_steps(model: BakefileView, agenda: Seq<TaskView>, depth: nat) -> nat
    decreases agenda.len(),
{
    if agenda.len() == 0 {
        0
    } else {
        (match agenda[0] {
            TaskView::Visit(target) => steps_for(model, target, depth),
            _ => 1,
        }) + agenda_steps(model, agenda.drop_first(), depth)
    }
}

/// Working off two agendas one after the other is working off both.
proof fn lemma_agenda_concat(
    model: BakefileView,
    first: Seq<TaskView>,
    second: Seq<TaskView>,
    depth: nat,
)
    ensures
        agenda_settles(model, first + second, depth) == (agenda_settles(model, first, depth)
            && agenda_settles(model, second, depth)),
        agenda_work(model, first + second, depth) == agenda_work(model, first, depth)
            + agenda_work(model, second, depth),
        agenda_steps(model, first + second, depth) == agenda_steps(model, first, depth)
            + agenda_steps(model, second, depth),
    decreases first.len(),
{
    if first.len() == 0 {
        assert(first + second == second);
        assert(Seq::<ActionView>::empty() + agenda_work(model, second, depth) == agenda_work(
            model,
            second,
            depth,
        ));
    } else {
        assert((first + second).drop_first() == first.drop_first() + second);
        assert((first + second)[0] == first[0]);
        lemma_agenda_concat(model, first.drop_first(), second, depth);
        let head = match first[0] {
            TaskView::Visit(target) => realization(model, target, depth),
            task => seq![action_of(task)],
        };
        assert(head + (agenda_work(model, first.drop_first(), depth) + agenda_work(
            model,
            second,
            depth,
        )) == (head + agenda_work(model, first.drop_first(), depth)) + agenda_work(
            model,
            second,
            depth,
        ));
    }
}

/// The visits of targets that settle are an agenda that settles, with the
/// realizations of the targets as its work.
proof fn lemma_agenda_of_visits(model: BakefileView, targets: Seq<Seq<char>>, depth: nat)
    requires
        all_settle(model, targets, depth),
    ensures
        agenda_settles(model, visits(targets), depth),
        agenda_work(model, visits(targets), depth) == realization_of_all(model, targets, depth),
        agenda_steps(model, visits(targets), depth) == steps_for_all(model, targets, depth),
    decreases targets.len(),
{
    if targets.len() > 0 {
        assert(visits(targets).drop_first() == visits(targets.drop_first()));
        assert(visits(targets)[0] == TaskView::Visit(targets[0]));
        lemma_agenda_of_visits(model, targets.drop_first(), depth);
    } else {
        assert(visits(targets).len() == 0);
    }
}

/// An agenda of announcements and commands settles, and its work is the
/// announcements and commands themselves.
proof fn lemma_agenda_of_actions(model: BakefileView, tasks: Seq<TaskView>, depth: nat)
    requires
        forall|k: int| 0 <= k < tasks.len() ==> !((#[trigger] tasks[k]) is Visit),
    ensures
        agenda_settles(model, tasks, depth),
        agenda_work(model, tasks, depth) == actions_of(tasks),
        agenda_steps(model, tasks, depth) == tasks.len(),
    decreases tasks.len(),
{
    if tasks.len() > 0 {
        let rest = tasks.drop_first();
        assert forall|k: int| 0 <= k < rest.len() implies !((#[trigger] rest[k]) is Visit) by {
            assert(rest[k] == tasks[k + 1]);
        }
        lemma_agenda_of_actions(model, rest, depth);
        assert(!(tasks[0] is Visit));
        assert(seq![action_of(tasks[0])] + actions_of(rest) =~= actions_of(tasks));
    } else {
        assert(actions_of(tasks) =~= Seq::empty());
    }
}

/// The commands of a recipe are commands.
proof fn lemma_commands_are_runs(recipe: Seq<Seq<char>>, variables: Seq<(Seq<char>, Seq<char>)>)
    ensures
        forall|k: int|
            0 <= k < commands(recipe, variables).len() ==> (#[trigger] commands(
                recipe,
                variables,
            )[k]) is Run,
    decreases recipe.len(),
{
    if recipe.len() > 0 {
        lemma_commands_are_runs(recipe.drop_first(), variables);
    }
}

/// The work that a visit puts on the agenda is the realization of its
/// target, and takes one step less: the step of the visit itself.
proof fn lemma_agenda_of_expansion(model: BakefileView, target: Seq<char>, depth: nat)
    requires
        settles(model, target, depth),
    ensures
        agenda_settles(model, expansion(model, target), depth),
        agenda_work(model, expansion(model, target), depth) == realization(model, target, depth),
        agenda_steps(model, expansion(model, target), depth) + 1 == steps_for(
            model,
            target,
            depth,
        ),
{
    match rule_index(model.rules, target) {
        None => {},
        Some(i) => {
            let rule = model.rules[i];
            let below = (depth - 1) as nat;
            lemma_depth_is_slack_for_all(model, rule.dependencies, below, depth);
            lemma_agenda_of_visits(model, rule.dependencies, depth);
            let announce = seq![TaskView::Announce(rule.target)];
            let runs = commands(rule.recipe, model.variables);
            lemma_commands_are_runs(rule.recipe, model.variables);
            lemma_agenda_of_actions(model, announce, depth);
            lemma_agenda_of_actions(model, runs, depth);
            lemma_agenda_concat(model, visits(rule.dependencies), announce, depth);
            lemma_agenda_concat(model, visits(rule.dependencies) + announce, runs, depth);
            assert(actions_of(announce) =~= seq![ActionView::Announce(rule.target)]);
        },
    }
}

/// Working off an agenda whose visits settle takes [`agenda_steps`] steps,
/// leaves nothing to do, and asks the caller for exactly [`agenda_work`].
pub proof fn lemma_run_works_off(model: BakefileView, agenda: Seq<TaskView>, depth: nat)
    requires
        agenda_settles(model, agenda, depth),
    ensures
        run(model, running(agenda), agenda_steps(model, agenda, depth)) == (
            running(Seq::empty()),
            agenda_work(model, agenda, depth),
        ),
    decreases agenda_steps(model, agenda, depth), agenda.len(),
{
    if agenda.len() == 0 {
        assert(agenda =~= Seq::empty());
    } else {
        let rest = agenda.drop_first();
        match agenda[0] {
            TaskView::Visit(target) => {
                let put = expansion(model, target);
                lemma_agenda_of_expansion(model, target, depth);
                lemma_agenda_concat(model, put, rest, depth);
                lemma_run_works_off(model, put + rest, depth);
            },
            task => {
                lemma_run_works_off(model, rest, depth);
            },
        }
    }
}

/// The executor realizes a target as the recursion over the rules says: from
/// its start it asks the caller for the realization of the target, in order,
/// and for nothing else; it then has nothing left to do and ends the run with
/// the exit code of success.
pub proof fn theorem_run_realizes(model: BakefileView, target: Seq<char>, depth: nat)
    requires
        settles(model, target, depth),
    ensures
        run(model, running(seq![TaskView::Visit(target)]), steps_for(model, target, depth)) == (
            running(Seq::empty()),
            realization(model, target, depth),
        ),
        step(model, running(Seq::empty())) == (
            running(Seq::empty()),
            ActionView::Exit(EXIT_SUCCESS as int),
        ),
{
    let agenda = seq![TaskView::Visit(target)];
    assert(agenda.drop_first() =~= Seq::empty());
    assert(agenda_settles(model, agenda.drop_first(), depth));
    assert(agenda_settles(model, agenda, depth));
    assert(agenda_work(model, agenda.drop_first(), depth) =~= Seq::empty());
    assert(agenda_steps(model, agenda.drop_first(), depth) == 0);
    assert(agenda_work(model, agenda, depth) =~= realization(model, target, depth));
    lemma_run_works_off(model, agenda, depth);
}

/// A target that no rule declares counts as realized: the run asks the caller
/// for nothing, is over after the one step of the visit, and ends with the
/// exit code of success.
pub proof fn lemma_absent_target_is_realized(model: BakefileView, target: Seq<char>)
    requires
        rule_index(model.rules, target) is None,
    ensures
        expansion(model, target) == Seq::<TaskView>::empty(),
        forall|depth: nat| depth > 0 ==> #[trigger] settles(model, target, depth),
        forall|depth: nat| #[trigger] realization(model, target, depth) == Seq::<ActionView>::empty(),
        run(model, running(seq![TaskView::Visit(target)]), 1) == (
            running(Seq::empty()),
            Seq::<ActionView>::empty(),
        ),
        step(model, running(Seq::empty())).1 == ActionView::Exit(EXIT_SUCCESS as int),
{
    assert(settles(model, target, 1));
    assert(steps_for(model, target, 1) == 1);
    theorem_run_realizes(model, target, 1);
}

/// A rule without dependencies and without a recipe is announced and nothing
/// else: realizing its target runs no command, and the run ends with the exit
/// code of success.
pub proof fn lemma_bare_rule_runs_nothing(model: BakefileView, target: Seq<char>)
    requires
        rule_index(model.rules, target) matches Some(i) && model.rules[i].dependencies.len() == 0
            && model.rules[i].recipe.len() == 0,
    ensures
        forall|depth: nat| depth > 0 ==> #[trigger] settles(model, target, depth),
        forall|depth: nat|
            depth > 0 ==> #[trigger] realization(model, target, depth) == seq![
                ActionView::Announce(target),
            ],
        run(model, running(seq![TaskView::Visit(target)]), 2) == (
            running(Seq::empty()),
            seq![ActionView::Announce(target)],
        ),
        step(model, running(Seq::empty())).1 == ActionView::Exit(EXIT_SUCCESS as int),
{
    let i = rule_index(model.rules, target)->0;
    let rule = model.rules[i];
    lemma_rule_index(model.rules, target);
    assert(commands(rule.recipe, model.variables) =~= Seq::empty());
    assert(actions_of(commands(rule.recipe, model.variables)) =~= Seq::empty());
    assert forall|depth: nat| depth > 0 implies #[trigger] settles(model, target, depth)
        && realization(model, target, depth) == seq![ActionView::Announce(target)] by {
        assert(all_settle(model, rule.dependencies, (depth - 1) as nat));
        assert(realization_of_all(model, rule.dependencies, (depth - 1) as nat)
            =~= Seq::empty());
        assert(realization(model, target, depth) =~= seq![ActionView::Announce(target)]);
    }
    assert(steps_for_all(model, rule.dependencies, 0) == 0);
    assert(steps_for(model, target, 1) == 2);
    theorem_run_realizes(model, target, 1);
}

/// Realizing a target with a rule is realizing the dependencies of the rule,
/// each in full and in the order in which they are listed, and only then
/// announcing the rule and running its commands.
pub proof fn lemma_dependencies_come_first(model: BakefileView, target: Seq<char>, depth: nat)
    requires
        depth > 0,
        rule_index(model.rules, target) is Some,
    ensures
        ({
            let rule = model.rules[rule_index(model.rules, target)->0];
            realization(model, target, depth) == realization_of_all(
                model,
                rule.dependencies,
                (depth - 1) as nat,
            ) + seq![ActionView::Announce(target)] + actions_of(
                commands(rule.recipe, model.variables),
            )
        }),
{
    lemma_rule_index(model.rules, target);
}

/// After a failure the run is over, whatever was left to do: every further
/// step ends it with the exit code of failure, which is not that of success.
pub proof fn lemma_failure_ends_run(model: BakefileView, state: ExecutorView)
    requires
        state.failed,
    ensures
        step(model, state) == (state, ActionView::Exit(EXIT_FAILURE as int)),
        EXIT_FAILURE != EXIT_SUCCESS,
{
}

} // verus!
