//! The executor: realizing a target by realizing what it depends on and then
//! running its recipe.
//!
//! Running a command is outside work.  The executor is therefore a machine
//! that is driven by its caller: [`Executor::step`] says what to do next, the
//! caller does it and, where a command fails, reports that with
//! [`Executor::fail`].

use crate::model::{find_rule, rule_index, Bakefile, BakefileView};
use crate::outcome::{EXIT_FAILURE, EXIT_SUCCESS};
use crate::subst::{set_variables, substituted};
use crate::text::{split_whitespace, to_chars, words};
use vstd::prelude::*;

verus! {

/// A piece of work that is still to be done.
#[derive(Debug, PartialEq, Eq)]
pub enum Task {
    /// Realize the target of this name.
    Visit(String),
    /// Tell that the recipe of this target begins.
    Announce(String),
    /// Run this command line, in which the variables are substituted.
    Run(String),
}

/// The mathematical value of a [`Task`].
pub enum TaskView {
    Visit(Seq<char>),
    Announce(Seq<char>),
    Run(Seq<char>),
}

impl View for Task {
    type V = TaskView;

    open spec fn view(&self) -> TaskView {
        match self {
            Task::Visit(target) => TaskView::Visit(target@),
            Task::Announce(target) => TaskView::Announce(target@),
            Task::Run(line) => TaskView::Run(line@),
        }
    }
}

/// What the caller of the executor has to do next.
#[derive(Debug, PartialEq, Eq)]
pub enum Action {
    /// Nothing; ask again.
    Continue,
    /// Tell that the recipe of this target begins.
    Announce(String),
    /// Start the program `words[0]` with the other words as its arguments and
    /// wait for it; `line` is the command line that the words come from.
    Run { line: String, words: Vec<String> },
    /// End the run with this exit code.
    Exit(i32),
}

/// The mathematical value of an [`Action`].
pub enum ActionView {
    Continue,
    Announce(Seq<char>),
    Run { line: Seq<char>, words: Seq<Seq<char>> },
    Exit(int),
}

impl View for Action {
    type V = ActionView;

    open spec fn view(&self) -> ActionView {
        match self {
            Action::Continue => ActionView::Continue,
            Action::Announce(target) => ActionView::Announce(target@),
            Action::Run { line, words } => ActionView::Run {
                line: line@,
                words: words.deep_view(),
            },
            Action::Exit(code) => ActionView::Exit(*code as int),
        }
    }
}

/// The state of a run.
#[derive(Debug)]
pub struct Executor {
    /// The work that is left, last task first.
    pending: Vec<Task>,
    /// Whether a command has failed.
    failed: bool,
}

/// The mathematical value of an [`Executor`]: the work that is left, in the
/// order in which it will be done, and whether a command has failed.
pub struct ExecutorView {
    pub agenda: Seq<TaskView>,
    pub failed: bool,
}

/// The values of the tasks `tasks`.
pub open spec fn task_views(tasks: Seq<Task>) -> Seq<TaskView> {
    tasks.map_values(|t: Task| t@)
}

impl View for Executor {
    type V = ExecutorView;

    closed spec fn view(&self) -> ExecutorView {
        ExecutorView { agenda: task_views(self.pending@).reverse(), failed: self.failed }
    }
}

/// The visits that the dependencies `dependencies` ask for, in their order.
pub open spec fn visits(dependencies: Seq<Seq<char>>) -> Seq<TaskView> {
    dependencies.map_values(|d: Seq<char>| TaskView::Visit(d))
}

/// The commands of `recipe`, in their order: each line that is not empty, with
/// the variables substituted.
pub open spec fn commands(recipe: Seq<Seq<char>>, variables: Seq<(Seq<char>, Seq<char>)>) -> Seq<
    TaskView,
>
    decreases recipe.len(),
{
    if recipe.len() == 0 {
        Seq::empty()
    } else if recipe[0].len() == 0 {
        commands(recipe.drop_first(), variables)
    } else {
        seq![TaskView::Run(substituted(recipe[0], variables))] + commands(
            recipe.drop_first(),
            variables,
        )
    }
}

/// The work that realizing `target` consists of.  A target without a rule is
/// taken as realized: there is nothing to do for it.  For a target with rules
/// the first rule counts: each of its dependencies is realized, in the order
/// in which they are listed, then the recipe is announced and its commands
/// run.
pub open spec fn expansion(model: BakefileView, target: Seq<char>) -> Seq<TaskView> {
    match rule_index(model.rules, target) {
        None => Seq::empty(),
        Some(i) => visits(model.rules[i].dependencies) + seq![
            TaskView::Announce(model.rules[i].target),
        ] + commands(model.rules[i].recipe, model.variables),
    }
}

/// One step of a run: the state after it and what the caller is asked to do.
///
/// After a failure, and when no work is left, the run is over.  Otherwise the
/// first task of the agenda is taken off.  A visit puts the work of its target
/// in front of the agenda; an announcement or a command is handed to the
/// caller, a command together with its words.
pub open spec fn step(model: BakefileView, state: ExecutorView) -> (ExecutorView, ActionView) {
    if state.failed {
        (state, ActionView::Exit(EXIT_FAILURE as int))
    } else if state.agenda.len() == 0 {
        (state, ActionView::Exit(EXIT_SUCCESS as int))
    } else {
        let rest = state.agenda.drop_first();
        match state.agenda.first() {
            TaskView::Visit(target) => (
                ExecutorView { agenda: expansion(model, target) + rest, ..state },
                ActionView::Continue,
            ),
            TaskView::Announce(target) => (
                ExecutorView { agenda: rest, ..state },
                ActionView::Announce(target),
            ),
            TaskView::Run(line) => (
                ExecutorView { agenda: rest, ..state },
                ActionView::Run { line, words: words(line) },
            ),
        }
    }
}

impl Executor {
    /// A run that is to realize `target`.
    pub fn new(target: &str) -> (e: Executor)
        ensures
            e@ == (ExecutorView { agenda: seq![TaskView::Visit(target@)], failed: false }),
    {
        let mut pending: Vec<Task> = Vec::new();
        pending.push(Task::Visit(target.to_owned()));
        assert(task_views(pending@).reverse() =~= seq![TaskView::Visit(target@)]);
        Executor { pending, failed: false }
    }

    /// Records that the command that was run last could not be started or
    /// ended with a status other than zero.  The run is over: nothing that was
    /// left will be done.
    pub fn fail(&mut self)
        ensures
            final(self)@ == (ExecutorView { agenda: Seq::empty(), failed: true }),
    {
        self.pending.clear();
        self.failed = true;
        assert(task_views(self.pending@).reverse() =~= Seq::empty());
    }

    /// Puts the tasks for the commands of `recipe` on `pending`, last command
    /// first.
    fn push_commands(pending: &mut Vec<Task>, recipe: &Vec<String>, variables: &Vec<(String, String)>)
        ensures
            task_views(final(pending)@) == task_views(old(pending)@) + commands(
                recipe.deep_view(),
                variables.deep_view(),
            ).reverse(),
    {
        let ghost before = task_views(pending@);
        let ghost lines = recipe.deep_view();
        let ghost vars = variables.deep_view();
        let mut k: usize = recipe.len();
        assert(lines.skip(k as int) =~= Seq::empty());
        assert(before + Seq::<TaskView>::empty().reverse() =~= before);
        while k > 0
            invariant
                k <= recipe.len(),
                lines == recipe.deep_view(),
                vars == variables.deep_view(),
                task_views(pending@) == before + commands(lines.skip(k as int), vars).reverse(),
            decreases k,
        {
            k -= 1;
            let ghost done = commands(lines.skip(k + 1), vars);
            assert(lines.skip(k as int).drop_first() == lines.skip(k + 1));
            assert(lines.skip(k as int)[0] == recipe@[k as int]@);
            if !recipe[k].as_str().is_empty() {
                let line = set_variables(recipe[k].as_str(), variables.as_slice());
                let ghost pushed = task_views(pending@);
                pending.push(Task::Run(line));
                assert(task_views(pending@) =~= pushed.push(TaskView::Run(line@)));
                assert((seq![TaskView::Run(line@)] + done).reverse() =~= done.reverse().push(
                    TaskView::Run(line@),
                ));
                assert(before + done.reverse().push(TaskView::Run(line@)) =~= (before
                    + done.reverse()).push(TaskView::Run(line@)));
            }
        }
        assert(lines.skip(0) == lines);
    }

    /// Puts the tasks for visiting `dependencies` on `pending`, last dependency
    /// first.
    fn push_visits(pending: &mut Vec<Task>, dependencies: &Vec<String>)
        ensures
            task_views(final(pending)@) == task_views(old(pending)@) + visits(
                dependencies.deep_view(),
            ).reverse(),
    {
        let ghost before = task_views(pending@);
        let ghost all = visits(dependencies.deep_view());
        let mut k: usize = dependencies.len();
        assert(before + all.skip(k as int).reverse() =~= before);
        while k > 0
            invariant
                k <= dependencies.len(),
                all == visits(dependencies.deep_view()),
                task_views(pending@) == before + all.skip(k as int).reverse(),
            decreases k,
        {
            k -= 1;
            let ghost pushed = task_views(pending@);
            pending.push(Task::Visit(dependencies[k].clone()));
            assert(task_views(pending@) =~= pushed.push(all[k as int]));
            assert(before + all.skip(k as int).reverse() =~= (before + all.skip(
                k + 1,
            ).reverse()).push(all[k as int]));
        }
        assert(all.skip(0) == all);
    }

    /// Takes the next step of the run on the model `bakefile` and says what
    /// the caller has to do.
    pub fn step(&mut self, bakefile: &Bakefile) -> (action: Action)
        ensures
            (final(self)@, action@) == step(bakefile@, old(self)@),
    {
        if self.failed {
            return Action::Exit(EXIT_FAILURE);
        }
        let ghost stack = task_views(self.pending@);
        match self.pending.pop() {
            None => {
                assert(stack.reverse() =~= Seq::empty());
                Action::Exit(EXIT_SUCCESS)
            },
            Some(task) => {
                let ghost below = task_views(self.pending@);
                assert(below =~= stack.drop_last());
                assert(stack.reverse().first() == task@);
                assert(stack.reverse().drop_first() =~= below.reverse());
                match task {
                    Task::Visit(target) => {
                        match find_rule(&bakefile.rules, target.as_str()) {
                            None => {
                                assert(expansion(bakefile@, target@) + below.reverse()
                                    =~= below.reverse());
                            },
                            Some(i) => {
                                let rule = &bakefile.rules[i];
                                let ghost runs = commands(
                                    rule@.recipe,
                                    bakefile@.variables,
                                );
                                let ghost deps = visits(rule@.dependencies);
                                Self::push_commands(
                                    &mut self.pending,
                                    &rule.recipe,
                                    &bakefile.variables,
                                );
                                let ghost pushed = task_views(self.pending@);
                                self.pending.push(Task::Announce(rule.target.clone()));
                                assert(task_views(self.pending@) =~= pushed.push(
                                    TaskView::Announce(rule@.target),
                                ));
                                Self::push_visits(&mut self.pending, &rule.dependencies);
                                assert(task_views(self.pending@) == below + runs.reverse()
                                    + seq![TaskView::Announce(rule@.target)] + deps.reverse());
                                assert((below + runs.reverse() + seq![
                                    TaskView::Announce(rule@.target),
                                ] + deps.reverse()).reverse() =~= (deps + seq![
                                    TaskView::Announce(rule@.target),
                                ] + runs) + below.reverse());
                            },
                        }
                        Action::Continue
                    },
                    Task::Announce(target) => Action::Announce(target),
                    Task::Run(line) => {
                        let chars = to_chars(line.as_str());
                        let words = split_whitespace(chars.as_slice());
                        Action::Run { line, words }
                    },
                }
            },
        }
    }
}

} // verus!
