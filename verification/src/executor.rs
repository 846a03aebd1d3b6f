//! Carrying out a sequence of commands on a collection of tasks.
//!
//! The executor walks the commands once. A primary command takes the
//! qualifiers that follow it, as far as they suit it, and is carried out
//! with them. What needs the outside world is handed to the caller as an
//! [`Action`]: tasks to show, or a question to put. The answer to a question
//! comes back through [`Executor::answer`]. The first error ends the walk,
//! and a walk that ended in an error gives no collection back.

use crate::commands::command_views;
use crate::commands::CommandView;
use crate::commands::Commands;
use crate::error::ErrorView;
use crate::error::HeapError;
use crate::heap::collect_filter_tags;
use crate::heap::edited;
use crate::heap::filter_tags;
use crate::heap::find_rejected_weights;
use crate::heap::holds;
use crate::heap::lemma_matching_places;
use crate::heap::matching_places;
use crate::heap::picked;
use crate::heap::places;
use crate::heap::position;
use crate::heap::pushed;
use crate::heap::rejected_weights;
use crate::heap::tags_cleared;
use crate::heap::unmatched;
use crate::heap::TaskHeap;
use crate::select::draw;
use crate::task::identity;
use crate::task::task_views;
use crate::task::Task;
use crate::task::TaskView;
use crate::text::join;
use crate::text::joined;
use crate::text::str_eq;
use crate::text::trim;
use crate::text::trimmed;
use vstd::prelude::*;
use vstd::slice::slice_subrange;
use vstd::string::*;

verus! {

/// Where the qualifiers of `primary` end: the place of the first command at
/// or behind `from` that may not follow `primary`, or the end.
pub open spec fn run_end(commands: Seq<CommandView>, primary: CommandView, from: int) -> int
    decreases commands.len() - from,
{
    if 0 <= from < commands.len() && commands[from].is_valid_for(primary) {
        run_end(commands, primary, from + 1)
    } else {
        from
    }
}

/// The qualifiers of a primary command end at or behind their start, within
/// the commands, and each of them may follow the primary command.
pub proof fn lemma_run_end(commands: Seq<CommandView>, primary: CommandView, from: int)
    requires
        0 <= from <= commands.len(),
    ensures
        from <= run_end(commands, primary, from) <= commands.len(),
        forall|i: int|
            from <= i < run_end(commands, primary, from) ==> (#[trigger] commands[i]).is_valid_for(
                primary,
            ),
        run_end(commands, primary, from) < commands.len() ==> !commands[run_end(
            commands,
            primary,
            from,
        )].is_valid_for(primary),
    decreases commands.len() - from,
{
    if from < commands.len() && commands[from].is_valid_for(primary) {
        lemma_run_end(commands, primary, from + 1);
    }
}

/// The question that is put before tasks are taken out.
#[derive(Clone, Copy, Debug, PartialEq, Eq, Structural)]
pub enum Prompt {
    /// Whether the task that was drawn is taken.
    Pop,
    /// Whether the tasks shown are deleted.
    Delete,
    /// Whether every task is deleted.
    Reset,
}

/// What the caller is to do before the next step.
#[derive(Debug)]
pub enum Action {
    /// Nothing is left to do.
    Done,
    /// A change was made. Holds the weights that wrote no number and were
    /// replaced by the default weight.
    Applied(Vec<String>),
    /// Show the tasks, put the question, and hand the answer back.
    Confirm(Prompt, Vec<Task>),
    /// Show the tasks.
    Show(Vec<Task>),
    /// Show how the program is used.
    Help,
    /// The command at this place is a qualifier that follows no command
    /// which takes it; it was passed over.
    Ignored(usize),
}

/// An [`Action`] as a value of the model.
pub enum ActionView {
    Done,
    Applied(Seq<Seq<char>>),
    Confirm(Prompt, Seq<TaskView>),
    Show(Seq<TaskView>),
    Help,
    Ignored(int),
}

impl View for Action {
    type V = ActionView;

    open spec fn view(&self) -> ActionView {
        match self {
            Action::Done => ActionView::Done,
            Action::Applied(weights) => ActionView::Applied(weights.deep_view()),
            Action::Confirm(prompt, tasks) => ActionView::Confirm(*prompt, task_views(tasks@)),
            Action::Show(tasks) => ActionView::Show(task_views(tasks@)),
            Action::Help => ActionView::Help,
            Action::Ignored(at) => ActionView::Ignored(*at as int),
        }
    }
}

/// What a confirmed question takes out.
#[derive(Debug)]
pub enum Pending {
    /// No question is open.
    Nothing,
    /// The task at this place.
    RemoveAt(usize),
    /// Every task that carries all these tags.
    RemoveTagged(Vec<String>),
    /// Every task.
    Reset,
}

/// A [`Pending`] as a value of the model.
pub enum PendingView {
    Nothing,
    RemoveAt(int),
    RemoveTagged(Seq<Seq<char>>),
    Reset,
}

impl View for Pending {
    type V = PendingView;

    open spec fn view(&self) -> PendingView {
        match self {
            Pending::Nothing => PendingView::Nothing,
            Pending::RemoveAt(at) => PendingView::RemoveAt(*at as int),
            Pending::RemoveTagged(tags) => PendingView::RemoveTagged(tags.deep_view()),
            Pending::Reset => PendingView::Reset,
        }
    }
}

/// The error of a filter that no task passes: that no task carries the
/// tags, or, without tags, that there is no task.
pub open spec fn no_match(tags: Seq<Seq<char>>) -> ErrorView {
    if tags.len() > 0 {
        ErrorView::NoTaggedElements(joined(tags, seq![',']))
    } else {
        ErrorView::NoTasksOnHeap
    }
}

/// Whether each of the tasks at the given places has the weight zero.
pub open spec fn weightless(tasks: Seq<TaskView>, found: Seq<int>) -> bool {
    forall|i: int| 0 <= i < found.len() ==> tasks[#[trigger] found[i]].weight == 0
}

/// The place of the task that a pop takes with the draw `draw`: the one
/// among the tasks passing the filter that the draw counts to. It is an
/// error that no task passes the filter, that the weights of those that do
/// are all zero, and that the draw counts too far.
pub open spec fn pop_choice(tasks: Seq<TaskView>, qualifiers: Seq<CommandView>, draw: int)
    -> Result<int, ErrorView> {
    let tags = filter_tags(qualifiers);
    let found = matching_places(tasks, tags);
    if found.len() == 0 {
        Err(no_match(tags))
    } else if weightless(tasks, found) {
        Err(ErrorView::DegenerateWeights)
    } else if 0 <= draw < found.len() {
        Ok(found[draw])
    } else {
        Err(ErrorView::IndexError("pop"@))
    }
}

/// What a delete takes out once it is confirmed: with tags, every task
/// that carries them all, and it is an error that there is none; without
/// tags, the task of the given name, and it is an error that the name is
/// empty or that no task has it.
pub open spec fn delete_plan(tasks: Seq<TaskView>, name: Seq<char>, qualifiers: Seq<CommandView>)
    -> Result<PendingView, ErrorView> {
    let tags = filter_tags(qualifiers);
    if tags.len() > 0 {
        if matching_places(tasks, tags).len() == 0 {
            Err(ErrorView::NoTaggedElements(joined(tags, seq![','])))
        } else {
            Ok(PendingView::RemoveTagged(tags))
        }
    } else if name.len() == 0 {
        Err(ErrorView::MissingArgument("name or tag"@, "delete"@))
    } else if holds(tasks, identity(name)) {
        Ok(PendingView::RemoveAt(position(tasks, identity(name))))
    } else {
        Err(ErrorView::TaskNotFound(name))
    }
}

/// The places of the tasks that a listing shows: those of the tasks that
/// pass the filter. A listing that would show nothing is an error: without
/// tags that of a filter without a match, with tags that of an empty
/// collection.
pub open spec fn list_choice(tasks: Seq<TaskView>, qualifiers: Seq<CommandView>) -> Result<
    Seq<int>,
    ErrorView,
> {
    let tags = filter_tags(qualifiers);
    let found = matching_places(tasks, tags);
    if found.len() > 0 {
        Ok(found)
    } else if tags.len() == 0 {
        Err(ErrorView::NoTaggedElements(joined(tags, seq![','])))
    } else {
        Err(ErrorView::NoTasksOnHeap)
    }
}

/// The tasks that a confirmed question takes out.
pub open spec fn doomed(tasks: Seq<TaskView>, pending: PendingView) -> Seq<TaskView> {
    match pending {
        PendingView::Nothing => Seq::empty(),
        PendingView::RemoveAt(at) => if 0 <= at < tasks.len() {
            seq![tasks[at]]
        } else {
            Seq::empty()
        },
        PendingView::RemoveTagged(tags) => picked(tasks, matching_places(tasks, tags)),
        PendingView::Reset => Seq::empty(),
    }
}

/// The tasks that are left once a question is confirmed.
pub open spec fn spared(tasks: Seq<TaskView>, pending: PendingView) -> Seq<TaskView> {
    match pending {
        PendingView::Nothing => tasks,
        PendingView::RemoveAt(at) => if 0 <= at < tasks.len() {
            tasks.remove(at)
        } else {
            tasks
        },
        PendingView::RemoveTagged(tags) => unmatched(tasks, tags),
        PendingView::Reset => Seq::empty(),
    }
}

/// Whether an answer to a question confirms it: it is `y` or `Y`, white
/// space around it aside.
pub open spec fn is_yes(answer: Seq<char>) -> bool {
    trimmed(answer) == seq!['y'] || trimmed(answer) == seq!['Y']
}

/// The state of a walk through a sequence of commands.
pub struct ExecutorView {
    /// The collection as it stands.
    pub tasks: Seq<TaskView>,
    /// The commands.
    pub commands: Seq<CommandView>,
    /// The place of the next command.
    pub cursor: int,
    /// What the open question takes out once it is confirmed.
    pub pending: PendingView,
    /// Whether a command has failed.
    pub failed: bool,
}

/// A state together with what a step hands to the caller.
pub struct Outcome {
    pub state: ExecutorView,
    pub result: Result<ActionView, ErrorView>,
}

impl ExecutorView {
    /// Whether the walk is over: a command has failed, or none is left.
    pub open spec fn is_over(self) -> bool {
        self.failed || !(0 <= self.cursor < self.commands.len())
    }

    /// Where the qualifiers of the next command end.
    pub open spec fn qualifiers_end(self) -> int {
        run_end(self.commands, self.commands[self.cursor], self.cursor + 1)
    }

    /// The qualifiers of the next command.
    pub open spec fn qualifiers(self) -> Seq<CommandView> {
        self.commands.subrange(self.cursor + 1, self.qualifiers_end())
    }

    /// The outcome of a command that was carried out: the walk goes on
    /// behind its qualifiers.
    pub open spec fn proceed(self, tasks: Seq<TaskView>, pending: PendingView, action: ActionView)
        -> Outcome {
        Outcome {
            state: ExecutorView { tasks, cursor: self.qualifiers_end(), pending, ..self },
            result: Ok(action),
        }
    }

    /// The outcome of a command that failed: the walk is over.
    pub open spec fn fail(self, e: ErrorView) -> Outcome {
        Outcome {
            state: ExecutorView { pending: PendingView::Nothing, failed: true, ..self },
            result: Err(e),
        }
    }

    /// The outcome of a command that changes the collection.
    pub open spec fn change(self, tasks: Result<Seq<TaskView>, ErrorView>) -> Outcome {
        match tasks {
            Ok(tasks) => self.proceed(
                tasks,
                PendingView::Nothing,
                ActionView::Applied(rejected_weights(self.qualifiers())),
            ),
            Err(e) => self.fail(e),
        }
    }

    /// The outcome of a command that asks before it takes tasks out.
    pub open spec fn ask(self, prompt: Prompt, plan: Result<PendingView, ErrorView>) -> Outcome {
        match plan {
            Ok(pending) => self.proceed(
                self.tasks,
                pending,
                ActionView::Confirm(prompt, doomed(self.tasks, pending)),
            ),
            Err(e) => self.fail(e),
        }
    }

    /// What one step does. An open question that was not answered is
    /// dropped. Then the next command is carried out with its qualifiers;
    /// `draw` is the draw by which a pop takes its task.
    pub open spec fn step(self, draw: int) -> Outcome {
        if self.is_over() {
            Outcome {
                state: ExecutorView { pending: PendingView::Nothing, ..self },
                result: Ok(ActionView::Done),
            }
        } else {
            match self.commands[self.cursor] {
                CommandView::Push(name) => self.change(pushed(self.tasks, name, self.qualifiers())),
                CommandView::Edit(name) => self.change(edited(self.tasks, name, self.qualifiers())),
                CommandView::ClearTags(name) => self.change(tags_cleared(self.tasks, name)),
                CommandView::Pop => self.ask(
                    Prompt::Pop,
                    match pop_choice(self.tasks, self.qualifiers(), draw) {
                        Ok(at) => Ok(PendingView::RemoveAt(at)),
                        Err(e) => Err(e),
                    },
                ),
                CommandView::Delete(name) => self.ask(
                    Prompt::Delete,
                    delete_plan(self.tasks, name, self.qualifiers()),
                ),
                CommandView::Reset => self.ask(Prompt::Reset, Ok(PendingView::Reset)),
                CommandView::List => match list_choice(self.tasks, self.qualifiers()) {
                    Ok(found) => self.proceed(
                        self.tasks,
                        PendingView::Nothing,
                        ActionView::Show(picked(self.tasks, found)),
                    ),
                    Err(e) => self.fail(e),
                },
                CommandView::Help => self.proceed(
                    self.tasks,
                    PendingView::Nothing,
                    ActionView::Help,
                ),
                _ => self.proceed(
                    self.tasks,
                    PendingView::Nothing,
                    ActionView::Ignored(self.cursor),
                ),
            }
        }
    }

    /// The state after the open question was answered: confirmed, it takes
    /// out what it was about; with any other answer nothing changes.
    pub open spec fn answered(self, answer: Seq<char>) -> ExecutorView {
        ExecutorView {
            tasks: if is_yes(answer) {
                spared(self.tasks, self.pending)
            } else {
                self.tasks
            },
            pending: PendingView::Nothing,
            ..self
        }
    }

    /// The collection that the walk gives back: the one it arrived at, if
    /// every command was carried out; none otherwise.
    pub open spec fn harvest(self) -> Option<Seq<TaskView>> {
        if !self.failed && self.cursor >= self.commands.len() {
            Some(self.tasks)
        } else {
            None
        }
    }

    /// The weights of the tasks among which the next step draws, if the
    /// next command is a pop.
    pub open spec fn pop_weights(self) -> Option<Seq<u32>> {
        if !self.is_over() && self.commands[self.cursor] is Pop {
            let found = matching_places(self.tasks, filter_tags(self.qualifiers()));
            Some(Seq::new(found.len(), |i: int| self.tasks[found[i]].weight))
        } else {
            None
        }
    }
}

/// A walk through a sequence of commands.
#[derive(Debug)]
pub struct Executor {
    heap: TaskHeap,
    commands: Vec<Commands>,
    cursor: usize,
    pending: Pending,
    failed: bool,
}

impl View for Executor {
    type V = ExecutorView;

    closed spec fn view(&self) -> ExecutorView {
        ExecutorView {
            tasks: self.heap@,
            commands: command_views(self.commands@),
            cursor: self.cursor as int,
            pending: self.pending@,
            failed: self.failed,
        }
    }
}

/// The place behind the qualifiers of the command at `cursor`.
pub fn consume(commands: &Vec<Commands>, cursor: usize) -> (r: usize)
    requires
        cursor < commands.len(),
    ensures
        r == run_end(command_views(commands@), commands@[cursor as int]@, cursor + 1),
        cursor < r <= commands.len(),
{
    let mut end: usize = cursor + 1;
    while end < commands.len() && commands[end].is_valid_for(&commands[cursor])
        invariant
            cursor < end <= commands.len(),
            run_end(command_views(commands@), commands@[cursor as int]@, cursor + 1) == run_end(
                command_views(commands@),
                commands@[cursor as int]@,
                end as int,
            ),
        decreases commands.len() - end,
    {
        end += 1;
    }
    end
}

/// The error of a filter that no task passes.
pub fn no_match_error(tags: &Vec<String>) -> (r: HeapError)
    ensures
        r@ == no_match(tags.deep_view()),
{
    if tags.len() > 0 {
        proof {
            reveal_strlit(",");
            assert(","@ =~= seq![',']);
        }
        HeapError::NoTaggedElements(join(tags, ","))
    } else {
        HeapError::NoTasksOnHeap
    }
}

/// Whether a result and its model say the same.
pub open spec fn same_place(r: Result<usize, HeapError>, model: Result<int, ErrorView>) -> bool {
    match r {
        Ok(at) => model == Ok::<int, ErrorView>(at as int),
        Err(e) => model == Err::<int, ErrorView>(e@),
    }
}

/// Whether a result and its model say the same.
pub open spec fn same_plan(r: Result<Pending, HeapError>, model: Result<PendingView, ErrorView>)
    -> bool {
    match r {
        Ok(plan) => model == Ok::<PendingView, ErrorView>(plan@),
        Err(e) => model == Err::<PendingView, ErrorView>(e@),
    }
}

/// Whether a result and its model say the same.
pub open spec fn same_places(r: Result<Vec<usize>, HeapError>, model: Result<Seq<int>, ErrorView>)
    -> bool {
    match r {
        Ok(at) => model == Ok::<Seq<int>, ErrorView>(places(at@)),
        Err(e) => model == Err::<Seq<int>, ErrorView>(e@),
    }
}

/// The weight of the task at a place, or zero where the place is none of
/// the collection.
fn weight_at(heap: &TaskHeap, at: usize) -> (r: u32)
    ensures
        at < heap@.len() ==> r == heap@[at as int].weight,
        at >= heap@.len() ==> r == 0,
{
    match heap.get_at(at) {
        Some(task) => task.get_weight(),
        None => 0,
    }
}

/// The place of the task that a pop takes with the draw `draw`.
pub fn choose_pop(heap: &TaskHeap, qualifiers: &[Commands], draw: usize) -> (r: Result<
    usize,
    HeapError,
>)
    ensures
        same_place(r, pop_choice(heap@, command_views(qualifiers@), draw as int)),
        r is Ok ==> r->Ok_0 < heap@.len(),
{
    let tags = collect_filter_tags(qualifiers);
    let found = heap.matching(tags.as_slice());
    proof {
        lemma_matching_places(heap@, tags.deep_view());
    }
    if found.len() == 0 {
        return Err(no_match_error(&tags));
    }
    let mut i: usize = 0;
    while i < found.len() && weight_at(heap, found[i]) == 0
        invariant
            i <= found.len(),
            places(found@) == matching_places(heap@, tags.deep_view()),
            forall|j: int|
                0 <= j < found@.len() ==> 0 <= #[trigger] places(found@)[j] < heap@.len(),
            forall|j: int| 0 <= j < i ==> heap@[#[trigger] places(found@)[j]].weight == 0,
        decreases found.len() - i,
    {
        assert(places(found@)[i as int] == found@[i as int]);
        i += 1;
    }
    if i == found.len() {
        return Err(HeapError::DegenerateWeights);
    }
    assert(places(found@)[i as int] == found@[i as int]);
    assert(heap@[places(found@)[i as int]].weight != 0);
    if draw < found.len() {
        assert(places(found@)[draw as int] == found@[draw as int]);
        Ok(found[draw])
    } else {
        Err(HeapError::IndexError("pop".to_owned()))
    }
}

/// What a delete takes out once it is confirmed.
pub fn plan_delete(heap: &TaskHeap, name: &str, qualifiers: &[Commands]) -> (r: Result<
    Pending,
    HeapError,
>)
    ensures
        same_plan(r, delete_plan(heap@, name@, command_views(qualifiers@))),
{
    let tags = collect_filter_tags(qualifiers);
    if tags.len() > 0 {
        let found = heap.matching(tags.as_slice());
        if found.len() == 0 {
            proof {
                reveal_strlit(",");
                assert(","@ =~= seq![',']);
            }
            Err(HeapError::NoTaggedElements(join(&tags, ",")))
        } else {
            Ok(Pending::RemoveTagged(tags))
        }
    } else if name.is_empty() {
        Err(HeapError::MissingArgument(("name or tag".to_owned(), "delete".to_owned())))
    } else {
        match heap.find(&Task::hash_fn(name)) {
            Some(at) => Ok(Pending::RemoveAt(at)),
            None => Err(HeapError::TaskNotFound(name.to_owned())),
        }
    }
}

/// The places of the tasks that a listing shows.
pub fn choose_list(heap: &TaskHeap, qualifiers: &[Commands]) -> (r: Result<Vec<usize>, HeapError>)
    ensures
        same_places(r, list_choice(heap@, command_views(qualifiers@))),
{
    let tags = collect_filter_tags(qualifiers);
    let found = heap.matching(tags.as_slice());
    if found.len() > 0 {
        Ok(found)
    } else if tags.len() == 0 {
        proof {
            reveal_strlit(",");
            assert(","@ =~= seq![',']);
        }
        Err(HeapError::NoTaggedElements(join(&tags, ",")))
    } else {
        Err(HeapError::NoTasksOnHeap)
    }
}

/// Copies of the tasks that a confirmed question takes out.
pub fn doomed_tasks(heap: &TaskHeap, pending: &Pending) -> (r: Vec<Task>)
    ensures
        task_views(r@) == doomed(heap@, pending@),
{
    let at: Vec<usize> = match pending {
        Pending::RemoveAt(at) => {
            let mut one: Vec<usize> = Vec::new();
            if *at < heap.len() {
                one.push(*at);
            }
            one
        },
        Pending::RemoveTagged(tags) => {
            proof {
                lemma_matching_places(heap@, tags.deep_view());
            }
            heap.matching(tags.as_slice())
        },
        _ => Vec::new(),
    };
    assert forall|i: int| 0 <= i < at@.len() implies at@[i] < heap@.len() by {
        assert(places(at@)[i] == at@[i]);
    }
    let out = heap.copies(&at);
    assert(task_views(out@) =~= doomed(heap@, pending@));
    out
}

/// Whether an answer to a question confirms it.
pub fn answer_is_yes(answer: &str) -> (r: bool)
    ensures
        r == is_yes(answer@),
{
    proof {
        reveal_strlit("y");
        reveal_strlit("Y");
        assert("y"@ =~= seq!['y']);
        assert("Y"@ =~= seq!['Y']);
    }
    let word = trim(answer);
    str_eq(word, "y") || str_eq(word, "Y")
}

/// Whether a state and a result are those of an outcome.
pub open spec fn agrees(outcome: Outcome, state: ExecutorView, r: Result<Action, HeapError>)
    -> bool {
    &&& state == outcome.state
    &&& match r {
        Ok(action) => outcome.result == Ok::<ActionView, ErrorView>(action@),
        Err(e) => outcome.result == Err::<ActionView, ErrorView>(e@),
    }
}

/// Whether a draw is one that the weights allow: where a weight is not
/// zero, the draw counts to such a weight.
pub open spec fn fair_draw(weights: Option<Seq<u32>>, draw: int) -> bool {
    match weights {
        Some(weights) => (exists|i: int| 0 <= i < weights.len() && weights[i] > 0) ==> 0 <= draw
            < weights.len() && weights[draw] > 0,
        None => true,
    }
}

/// A walk that has failed stays failed and gives no collection back; a step
/// that fails leaves the collection as it was.
pub proof fn lemma_failure_is_final(state: ExecutorView, draw: int, answer: Seq<char>)
    ensures
        state.step(draw).result is Err ==> state.step(draw).state.failed && state.step(
            draw,
        ).state.tasks == state.tasks,
        state.failed ==> state.step(draw).state.failed && state.answered(answer).failed,
        state.failed ==> state.harvest() is None,
        state.step(draw).state.failed ==> state.step(draw).state.harvest() is None,
{
}

/// A pop takes one of the tasks that pass its filter. Where one task alone
/// passes it, the pop takes that task whatever the draw.
pub proof fn lemma_pop_takes_a_match(state: ExecutorView, draw: int)
    requires
        !state.is_over(),
        state.commands[state.cursor] is Pop,
        state.step(draw).result is Ok,
    ensures
        ({
            let found = matching_places(state.tasks, filter_tags(state.qualifiers()));
            let taken = state.step(draw).state.pending->RemoveAt_0;
            &&& state.step(draw).state.pending is RemoveAt
            &&& 0 <= draw < found.len()
            &&& taken == found[draw]
            &&& 0 <= taken < state.tasks.len()
            &&& state.tasks[taken].has_tags(filter_tags(state.qualifiers()))
            &&& state.step(draw).result == Ok::<ActionView, ErrorView>(
                ActionView::Confirm(Prompt::Pop, seq![state.tasks[taken]]),
            )
            &&& found.len() == 1 ==> taken == found[0]
        }),
{
    lemma_matching_places(state.tasks, filter_tags(state.qualifiers()));
}

impl Executor {
    /// A walk through `commands` on `heap`, before its first step.
    pub fn new(heap: TaskHeap, commands: Vec<Commands>) -> (r: Executor)
        ensures
            r@ == (ExecutorView {
                tasks: heap@,
                commands: command_views(commands@),
                cursor: 0,
                pending: PendingView::Nothing,
                failed: false,
            }),
    {
        Executor { heap, commands, cursor: 0, pending: Pending::Nothing, failed: false }
    }

    /// The collection as it stands.
    pub fn heap(&self) -> (r: &TaskHeap)
        ensures
            r@ == self@.tasks,
    {
        &self.heap
    }

    /// The commands.
    pub fn commands(&self) -> (r: &Vec<Commands>)
        ensures
            command_views(r@) == self@.commands,
    {
        &self.commands
    }

    /// Whether a command has failed.
    pub fn has_failed(&self) -> (r: bool)
        ensures
            r == self@.failed,
    {
        self.failed
    }

    /// Whether a question is open.
    pub fn has_question(&self) -> (r: bool)
        ensures
            r == !(self@.pending is Nothing),
    {
        match self.pending {
            Pending::Nothing => false,
            _ => true,
        }
    }

    /// The weights of the tasks among which the next step draws, if the
    /// next command is a pop.
    pub fn pop_weights(&self) -> (r: Option<Vec<u32>>)
        ensures
            r is Some == self@.pop_weights() is Some,
            r is Some ==> r->0@ == self@.pop_weights()->0,
    {
        if self.failed || self.cursor >= self.commands.len() {
            return None;
        }
        match &self.commands[self.cursor] {
            Commands::Pop => {},
            _ => {
                return None;
            },
        }
        let end = consume(&self.commands, self.cursor);
        let qualifiers = slice_subrange(self.commands.as_slice(), self.cursor + 1, end);
        assert(command_views(qualifiers@) =~= self@.qualifiers());
        let tags = collect_filter_tags(qualifiers);
        let found = self.heap.matching(tags.as_slice());
        proof {
            lemma_matching_places(self.heap@, tags.deep_view());
        }
        let mut weights: Vec<u32> = Vec::new();
        let mut i: usize = 0;
        while i < found.len()
            invariant
                i <= found.len(),
                places(found@) == matching_places(self.heap@, tags.deep_view()),
                forall|j: int|
                    0 <= j < found@.len() ==> 0 <= #[trigger] places(found@)[j] < self.heap@.len(),
                weights@.len() == i,
                forall|j: int|
                    0 <= j < i ==> weights@[j] == self.heap@[#[trigger] places(found@)[j]].weight,
            decreases found.len() - i,
        {
            assert(places(found@)[i as int] == found@[i as int]);
            weights.push(weight_at(&self.heap, found[i]));
            i += 1;
        }
        assert(weights@ =~= self@.pop_weights()->0);
        Some(weights)
    }

    /// Carries out the next command with its qualifiers, a pop with the
    /// draw `draw`.
    pub fn step_with_draw(&mut self, draw: usize) -> (r: Result<Action, HeapError>)
        ensures
            agrees(old(self)@.step(draw as int), final(self)@, r),
    {
        self.pending = Pending::Nothing;
        if self.failed || self.cursor >= self.commands.len() {
            return Ok(Action::Done);
        }
        let end = consume(&self.commands, self.cursor);
        let qualifiers = slice_subrange(self.commands.as_slice(), self.cursor + 1, end);
        assert(command_views(qualifiers@) =~= old(self)@.qualifiers());
        let ghost before = old(self)@;
        let outcome: Result<(Pending, Action), HeapError> = match &self.commands[self.cursor] {
            Commands::Push(name) => match self.heap.push(name.as_str(), qualifiers) {
                Ok(_) => Ok((Pending::Nothing, Action::Applied(find_rejected_weights(qualifiers)))),
                Err(e) => Err(e),
            },
            Commands::Edit(name) => match self.heap.edit(name.as_str(), qualifiers) {
                Ok(_) => Ok((Pending::Nothing, Action::Applied(find_rejected_weights(qualifiers)))),
                Err(e) => Err(e),
            },
            Commands::ClearTags(name) => match self.heap.clear_tags(name.as_str()) {
                Ok(_) => Ok((Pending::Nothing, Action::Applied(find_rejected_weights(qualifiers)))),
                Err(e) => Err(e),
            },
            Commands::Pop => match choose_pop(&self.heap, qualifiers, draw) {
                Ok(at) => {
                    let plan = Pending::RemoveAt(at);
                    let tasks = doomed_tasks(&self.heap, &plan);
                    Ok((plan, Action::Confirm(Prompt::Pop, tasks)))
                },
                Err(e) => Err(e),
            },
            Commands::Delete(name) => match plan_delete(&self.heap, name.as_str(), qualifiers) {
                Ok(plan) => {
                    let tasks = doomed_tasks(&self.heap, &plan);
                    Ok((plan, Action::Confirm(Prompt::Delete, tasks)))
                },
                Err(e) => Err(e),
            },
            Commands::Reset => {
                let plan = Pending::Reset;
                let tasks = doomed_tasks(&self.heap, &plan);
                Ok((plan, Action::Confirm(Prompt::Reset, tasks)))
            },
            Commands::List => match choose_list(&self.heap, qualifiers) {
                Ok(found) => {
                    proof {
                        lemma_matching_places(
                            self.heap@,
                            filter_tags(command_views(qualifiers@)),
                        );
                        assert forall|i: int| 0 <= i < found@.len() implies found@[i]
                            < self.heap@.len() by {
                            assert(places(found@)[i] == found@[i]);
                        }
                    }
                    Ok((Pending::Nothing, Action::Show(self.heap.copies(&found))))
                },
                Err(e) => Err(e),
            },
            Commands::Help => Ok((Pending::Nothing, Action::Help)),
            _ => Ok((Pending::Nothing, Action::Ignored(self.cursor))),
        };
        match outcome {
            Ok((pending, action)) => {
                self.pending = pending;
                self.cursor = end;
                Ok(action)
            },
            Err(e) => {
                self.failed = true;
                Err(e)
            },
        }
    }

    /// Carries out the next command with its qualifiers. A pop draws its
    /// task at random, by weight, among the tasks that pass its filter.
    pub fn step(&mut self) -> (r: Result<Action, HeapError>)
        ensures
            exists|draw: int|
                0 <= draw && fair_draw(old(self)@.pop_weights(), draw) && agrees(
                    #[trigger] old(self)@.step(draw),
                    final(self)@,
                    r,
                ),
    {
        let drawn = match self.pop_weights() {
            Some(weights) => match draw(&weights) {
                Some(at) => at,
                None => 0,
            },
            None => 0,
        };
        self.step_with_draw(drawn)
    }

    /// Takes the answer to the open question: `y` or `Y` confirms it, and
    /// what it was about is taken out. Says whether anything was confirmed.
    pub fn answer(&mut self, answer: &str) -> (r: bool)
        ensures
            final(self)@ == old(self)@.answered(answer@),
            r == (is_yes(answer@) && !(old(self)@.pending is Nothing)),
    {
        let mut pending = Pending::Nothing;
        core::mem::swap(&mut self.pending, &mut pending);
        if !answer_is_yes(answer) {
            return false;
        }
        match pending {
            Pending::Nothing => false,
            Pending::RemoveAt(at) => {
                self.heap.remove_at(at);
                true
            },
            Pending::RemoveTagged(tags) => {
                self.heap.remove_matching(tags.as_slice());
                true
            },
            Pending::Reset => {
                self.heap.clear();
                true
            },
        }
    }

    /// Ends the walk and gives back the collection it arrived at, if every
    /// command was carried out. A walk that failed, or that was not walked
    /// to its end, gives nothing back.
    pub fn finish(self) -> (r: Option<TaskHeap>)
        ensures
            r is Some == self@.harvest() is Some,
            r is Some ==> r->0@ == self@.harvest()->0,
    {
        if !self.failed && self.cursor >= self.commands.len() {
            Some(self.heap)
        } else {
            None
        }
    }
}

} // verus!
