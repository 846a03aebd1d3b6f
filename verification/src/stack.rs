//! The stack: a named, weighted, tagged container that holds tasks in order
//! and moves them through their life cycle.

use crate::error::ErrorView;
use crate::error::HeapError;
use crate::tags::debug_set;
use crate::tags::has_all_tags;
use crate::tags::insert_tags;
use crate::tags::TagSet;
use crate::task::task_views;
use crate::task::Status;
use crate::task::Task;
use crate::task::TaskView;
use crate::text::decimal;
use crate::text::u32_to_string;
use crate::text::u64_to_string;
use std::collections::VecDeque;
use vstd::prelude::*;
use vstd::string::*;

verus! {

/// An ordered collection of tasks with a name, a description, a weight and
/// tags of its own.
#[derive(Debug)]
pub struct TaskStack {
    name: String,
    description: String,
    weight: u32,
    tags: TagSet,
    tasks: VecDeque<Task>,
}

/// What a [`TaskStack`] holds.
pub struct StackView {
    pub name: Seq<char>,
    pub description: Seq<char>,
    pub weight: u32,
    pub tags: Seq<Seq<char>>,
    pub tasks: Seq<TaskView>,
}

/// Index of the first task with this status, or the number of tasks where
/// there is none.
pub open spec fn first_with_status(tasks: Seq<TaskView>, status: Status) -> int
    decreases tasks.len(),
{
    if tasks.len() == 0 || tasks[0].status == status {
        0
    } else {
        1 + first_with_status(tasks.drop_first(), status)
    }
}

/// The scheduling rule: where no task is staged, the first waiting task is
/// staged. Where a task is staged, or none is waiting, nothing changes.
pub open spec fn advanced(tasks: Seq<TaskView>) -> Seq<TaskView> {
    let next = first_with_status(tasks, Status::Unstaged);
    if first_with_status(tasks, Status::Staged) == tasks.len() && 0 <= next < tasks.len() {
        tasks.update(next, tasks[next].with_status(Status::Staged))
    } else {
        tasks
    }
}

/// The tasks after the one at `index` was finished and the scheduling rule
/// applied.
pub open spec fn done_at(tasks: Seq<TaskView>, index: int) -> Seq<TaskView> {
    advanced(tasks.update(index, tasks[index].moved(Status::Finished)))
}

/// The tasks that are not finished, in their order.
pub open spec fn unfinished(tasks: Seq<TaskView>) -> Seq<TaskView> {
    tasks.filter(|t: TaskView| t.status != Status::Finished)
}

/// The first task with a status is at `k` when no task before `k` has the
/// status and `k` is the end or has it.
pub proof fn lemma_first_with_status(tasks: Seq<TaskView>, status: Status, k: int)
    requires
        0 <= k <= tasks.len(),
        forall|j: int| 0 <= j < k ==> (#[trigger] tasks[j]).status != status,
        k == tasks.len() || tasks[k].status == status,
    ensures
        first_with_status(tasks, status) == k,
    decreases k,
{
    if k > 0 {
        let rest = tasks.drop_first();
        assert forall|j: int| 0 <= j < k - 1 implies (#[trigger] rest[j]).status != status by {
            assert(rest[j] == tasks[j + 1]);
        }
        lemma_first_with_status(rest, status, k - 1);
    }
}

/// What the first task with a status is: no task before it has the status,
/// and it has it unless it is the end.
pub proof fn lemma_first_with_status_is_first(tasks: Seq<TaskView>, status: Status)
    ensures
        0 <= first_with_status(tasks, status) <= tasks.len(),
        forall|j: int|
            0 <= j < first_with_status(tasks, status) ==> (#[trigger] tasks[j]).status != status,
        first_with_status(tasks, status) < tasks.len() ==> tasks[first_with_status(
            tasks,
            status,
        )].status == status,
    decreases tasks.len(),
{
    if !(tasks.len() == 0 || tasks[0].status == status) {
        let rest = tasks.drop_first();
        lemma_first_with_status_is_first(rest, status);
        let k = first_with_status(tasks, status);
        assert forall|j: int| 0 <= j < k implies (#[trigger] tasks[j]).status != status by {
            if j > 0 {
                assert(tasks[j] == rest[j - 1]);
            }
        }
        if k < tasks.len() {
            assert(tasks[k] == rest[k - 1]);
        }
    }
}

/// Finishing the only staged task stages the earliest waiting task, and no
/// call stages more than one task. Nothing but the finished and the staged
/// task changes.
pub proof fn lemma_auto_advance(tasks: Seq<TaskView>, index: int)
    requires
        0 <= index < tasks.len(),
    ensures
        done_at(tasks, index).len() == tasks.len(),
        done_at(tasks, index)[index] == tasks[index].with_status(Status::Finished),
        forall|a: int, b: int|
            0 <= a < tasks.len() && 0 <= b < tasks.len() && #[trigger] tasks[a].status
                != Status::Staged && done_at(tasks, index)[a].status == Status::Staged
                && #[trigger] tasks[b].status != Status::Staged && done_at(tasks, index)[b].status
                == Status::Staged ==> a == b,
        forall|j: int|
            0 <= j < tasks.len() && j != index ==> #[trigger] done_at(tasks, index)[j] == tasks[j]
                || (tasks[j].status == Status::Unstaged && done_at(tasks, index)[j]
                == tasks[j].with_status(Status::Staged)),
        (forall|j: int| 0 <= j < tasks.len() && j != index ==> (#[trigger] tasks[j]).status
            != Status::Staged) ==> forall|k: int|
            0 <= k < tasks.len() && k != index && (#[trigger] tasks[k]).status == Status::Unstaged
                && (forall|j: int|
                0 <= j < k && j != index ==> (#[trigger] tasks[j]).status != Status::Unstaged)
                ==> done_at(tasks, index)[k] == tasks[k].with_status(Status::Staged),
{
    let finished = tasks.update(index, tasks[index].moved(Status::Finished));
    lemma_first_with_status_is_first(finished, Status::Unstaged);
    lemma_first_with_status_is_first(finished, Status::Staged);
    let after = done_at(tasks, index);
    if forall|j: int| 0 <= j < tasks.len() && j != index ==> (#[trigger] tasks[j]).status
        != Status::Staged {
        assert forall|j: int| 0 <= j < finished.len() implies (#[trigger] finished[j]).status
            != Status::Staged by {
            if j != index {
                assert(finished[j] == tasks[j]);
            }
        }
        lemma_first_with_status(finished, Status::Staged, finished.len() as int);
        assert forall|k: int|
            0 <= k < tasks.len() && k != index && (#[trigger] tasks[k]).status == Status::Unstaged
                && (forall|j: int|
                0 <= j < k && j != index ==> (#[trigger] tasks[j]).status
                    != Status::Unstaged) implies after[k] == tasks[k].with_status(
            Status::Staged,
        ) by {
            assert forall|j: int| 0 <= j < k implies (#[trigger] finished[j]).status
                != Status::Unstaged by {
                if j != index {
                    assert(finished[j] == tasks[j]);
                }
            }
            assert(finished[k] == tasks[k]);
            lemma_first_with_status(finished, Status::Unstaged, k);
        }
    }
}

/// Applying the scheduling rule twice changes no more than applying it once.
pub proof fn lemma_advanced_idempotent(tasks: Seq<TaskView>)
    ensures
        advanced(advanced(tasks)) == advanced(tasks),
{
    lemma_first_with_status_is_first(tasks, Status::Unstaged);
    lemma_first_with_status_is_first(tasks, Status::Staged);
    let once = advanced(tasks);
    lemma_first_with_status_is_first(once, Status::Staged);
    let next = first_with_status(tasks, Status::Unstaged);
    if first_with_status(tasks, Status::Staged) == tasks.len() && 0 <= next < tasks.len() {
        assert(once[next].status == Status::Staged);
        assert(first_with_status(once, Status::Staged) < once.len());
    }
}

impl View for TaskStack {
    type V = StackView;

    closed spec fn view(&self) -> StackView {
        StackView {
            name: self.name@,
            description: self.description@,
            weight: self.weight,
            tags: self.tags@,
            tasks: task_views(self.tasks@),
        }
    }
}

impl StackView {
    /// The line that describes the stack: its name, its description, its
    /// weight, its tags and the number of its tasks.
    pub open spec fn summary(self) -> Seq<char> {
        "TaskStack { name: "@ + self.name + ", description: "@ + self.description + ", weight: "@
            + decimal(self.weight as nat) + ", tags: "@ + debug_set(self.tags) + ", tasks: "@
            + decimal(self.tasks.len()) + " }"@
    }

    /// The stack with other tasks.
    pub open spec fn with_tasks(self, tasks: Seq<TaskView>) -> StackView {
        StackView { tasks, ..self }
    }
}

/// Takes the task at `index` a step towards `to`.
fn move_task(tasks: &mut VecDeque<Task>, index: usize, to: Status)
    requires
        index < old(tasks)@.len(),
    ensures
        task_views(final(tasks)@) == task_views(old(tasks)@).update(
            index as int,
            task_views(old(tasks)@)[index as int].moved(to),
        ),
{
    let ghost before = task_views(tasks@);
    let taken = tasks.remove(index);
    let mut task = taken.unwrap();
    task.move_to(to);
    tasks.insert(index, task);
    assert(task_views(tasks@) =~= before.update(index as int, before[index as int].moved(to)));
}

impl TaskStack {
    /// An empty stack with the given fields and the tags of `tags`, each
    /// once.
    pub fn new(name: &str, description: &str, weight: u32, tags: Vec<String>) -> (r: TaskStack)
        ensures
            r@ == (StackView {
                name: name@,
                description: description@,
                weight,
                tags: insert_tags(Seq::empty(), tags.deep_view()),
                tasks: Seq::empty(),
            }),
    {
        let r = TaskStack {
            name: name.to_owned(),
            description: description.to_owned(),
            weight,
            tags: TagSet::from_vec(tags),
            tasks: VecDeque::new(),
        };
        assert(task_views(r.tasks@) =~= Seq::empty());
        r
    }

    /// Puts a task at the end.
    pub fn push(&mut self, task: Task)
        ensures
            final(self)@ == old(self)@.with_tasks(old(self)@.tasks.push(task@)),
    {
        let ghost before = task_views(self.tasks@);
        self.tasks.push_back(task);
        assert(task_views(self.tasks@) =~= before.push(task@));
    }

    /// Puts a task at `index`; the tasks from there on move up by one.
    pub fn insert(&mut self, task: Task, index: usize)
        requires
            index <= old(self)@.tasks.len(),
        ensures
            final(self)@ == old(self)@.with_tasks(old(self)@.tasks.insert(index as int, task@)),
    {
        let ghost before = task_views(self.tasks@);
        self.tasks.insert(index, task);
        assert(task_views(self.tasks@) =~= before.insert(index as int, task@));
    }

    /// Takes out the task at `index`, if there is one, and says whether
    /// there was.
    pub fn delete(&mut self, index: usize) -> (r: bool)
        ensures
            r == (index < old(self)@.tasks.len()),
            r ==> final(self)@ == old(self)@.with_tasks(old(self)@.tasks.remove(index as int)),
            !r ==> final(self)@ == old(self)@,
    {
        let ghost before = task_views(self.tasks@);
        let gone = self.tasks.remove(index);
        proof {
            if gone is Some {
                assert(task_views(self.tasks@) =~= before.remove(index as int));
            }
        }
        gone.is_some()
    }

    /// Finishes the task at `index`. Where no task is staged after that, the
    /// first waiting task is staged.
    pub fn set_done(&mut self, index: usize) -> (r: Result<(), HeapError>)
        ensures
            match r {
                Ok(_) => index < old(self)@.tasks.len() && final(self)@ == old(self)@.with_tasks(
                    done_at(old(self)@.tasks, index as int),
                ),
                Err(e) => index >= old(self)@.tasks.len() && final(self)@ == old(self)@ && e@
                    == ErrorView::IndexError("set_done"@),
            },
    {
        if index >= self.tasks.len() {
            return Err(HeapError::IndexError("set_done".to_owned()));
        }
        move_task(&mut self.tasks, index, Status::Finished);
        self.advance();
        Ok(())
    }

    /// Applies the scheduling rule.
    fn advance(&mut self)
        ensures
            final(self)@ == old(self)@.with_tasks(advanced(old(self)@.tasks)),
    {
        let n = self.tasks.len();
        let ghost tasks = task_views(self.tasks@);
        let mut staged: usize = 0;
        while staged < n && !self.tasks[staged].is_staged()
            invariant
                staged <= n,
                n == self.tasks@.len(),
                tasks == task_views(self.tasks@),
                forall|j: int| 0 <= j < staged ==> (#[trigger] tasks[j]).status != Status::Staged,
            decreases n - staged,
        {
            staged += 1;
        }
        let mut next: usize = 0;
        while next < n && !self.tasks[next].is_unstaged()
            invariant
                next <= n,
                n == self.tasks@.len(),
                tasks == task_views(self.tasks@),
                forall|j: int| 0 <= j < next ==> (#[trigger] tasks[j]).status != Status::Unstaged,
            decreases n - next,
        {
            next += 1;
        }
        proof {
            lemma_first_with_status(tasks, Status::Staged, staged as int);
            lemma_first_with_status(tasks, Status::Unstaged, next as int);
        }
        if staged == n && next < n {
            move_task(&mut self.tasks, next, Status::Staged);
        }
    }

    /// Puts the waiting task at `index` up for work. A task that is up for
    /// work or done stays as it is.
    pub fn stage(&mut self, index: usize) -> (r: Result<(), HeapError>)
        ensures
            match r {
                Ok(_) => index < old(self)@.tasks.len() && final(self)@ == old(self)@.with_tasks(
                    old(self)@.tasks.update(
                        index as int,
                        old(self)@.tasks[index as int].moved(Status::Staged),
                    ),
                ),
                Err(e) => index >= old(self)@.tasks.len() && final(self)@ == old(self)@ && e@
                    == ErrorView::IndexError("stage"@),
            },
    {
        if index >= self.tasks.len() {
            return Err(HeapError::IndexError("stage".to_owned()));
        }
        move_task(&mut self.tasks, index, Status::Staged);
        Ok(())
    }

    /// Takes the staged task at `index` back to waiting. A task that is
    /// waiting or done stays as it is.
    pub fn unstage(&mut self, index: usize) -> (r: Result<(), HeapError>)
        ensures
            match r {
                Ok(_) => index < old(self)@.tasks.len() && final(self)@ == old(self)@.with_tasks(
                    old(self)@.tasks.update(
                        index as int,
                        old(self)@.tasks[index as int].moved(Status::Unstaged),
                    ),
                ),
                Err(e) => index >= old(self)@.tasks.len() && final(self)@ == old(self)@ && e@
                    == ErrorView::IndexError("unstage"@),
            },
    {
        if index >= self.tasks.len() {
            return Err(HeapError::IndexError("unstage".to_owned()));
        }
        move_task(&mut self.tasks, index, Status::Unstaged);
        Ok(())
    }

    /// The weight of each task, in order.
    pub fn get_staged_weights(&self) -> (r: Vec<u32>)
        ensures
            r@.len() == self@.tasks.len(),
            forall|i: int| 0 <= i < r@.len() ==> r@[i] == (#[trigger] self@.tasks[i]).weight,
    {
        let mut out: Vec<u32> = Vec::new();
        let mut i: usize = 0;
        while i < self.tasks.len()
            invariant
                i <= self.tasks.len(),
                out@.len() == i,
                forall|j: int| 0 <= j < i ==> out@[j] == (#[trigger] self@.tasks[j]).weight,
            decreases self.tasks.len() - i,
        {
            out.push(self.tasks[i].get_weight());
            i += 1;
        }
        out
    }

    /// Takes out the finished tasks; the others keep their order.
    pub fn clear_done(&mut self)
        ensures
            final(self)@ == old(self)@.with_tasks(unfinished(old(self)@.tasks)),
    {
        let ghost before = task_views(self.tasks@);
        let ghost keep = |t: TaskView| t.status != Status::Finished;
        let mut kept: VecDeque<Task> = VecDeque::new();
        assert(task_views(kept@) =~= Seq::empty());
        assert(before.take(0).filter(keep) =~= Seq::empty());
        let n = self.tasks.len();
        let mut i: usize = 0;
        while i < n
            invariant
                i <= n,
                n == before.len(),
                before.len() == i + self.tasks@.len(),
                task_views(self.tasks@) == before.skip(i as int),
                task_views(kept@) == before.take(i as int).filter(keep),
                keep == |t: TaskView| t.status != Status::Finished,
                self@.with_tasks(before) == old(self)@,
            decreases n - i,
        {
            let ghost rest = task_views(self.tasks@);
            let ghost raw = self.tasks@;
            let taken = self.tasks.pop_front();
            let task = taken.unwrap();
            assert(task@ == before[i as int]) by {
                assert(rest[0] == before[i as int]);
            }
            assert(task_views(self.tasks@) =~= before.skip(i + 1)) by {
                assert(self.tasks@ =~= raw.subrange(1, raw.len() as int));
                assert forall|j: int| 0 <= j < self.tasks@.len() implies task_views(self.tasks@)[j]
                    == before.skip(i + 1)[j] by {
                    assert(self.tasks@[j] == raw[j + 1]);
                    assert(rest[j + 1] == raw[j + 1]@);
                    assert(rest[j + 1] == before[i + j + 1]);
                }
            }
            proof {
                let head = before.take(i as int);
                assert(before.take(i + 1) =~= head.push(before[i as int]));
                assert(before.take(i + 1).drop_last() =~= head);
                reveal(Seq::filter);
            }
            if !task.is_finished() {
                let ghost was = task_views(kept@);
                kept.push_back(task);
                assert(task_views(kept@) =~= was.push(before[i as int]));
            }
            i += 1;
        }
        assert(before.take(n as int) =~= before);
        self.tasks = kept;
    }

    /// Takes out every task.
    pub fn clear_all(&mut self)
        ensures
            final(self)@ == old(self)@.with_tasks(Seq::empty()),
    {
        self.tasks.clear();
        assert(task_views(self.tasks@) =~= Seq::empty());
    }

    /// The task at `index`, if there is one.
    pub fn get(&self, index: usize) -> (r: Option<&Task>)
        ensures
            r is Some == (index < self@.tasks.len()),
            r is Some ==> r->0@ == self@.tasks[index as int],
    {
        if index < self.tasks.len() {
            Some(&self.tasks[index])
        } else {
            None
        }
    }

    /// Whether the stack holds no task.
    pub fn is_empty(&self) -> (r: bool)
        ensures
            r == (self@.tasks.len() == 0),
    {
        self.tasks.len() == 0
    }

    /// How many tasks the stack holds.
    pub fn len(&self) -> (r: usize)
        ensures
            r == self@.tasks.len(),
    {
        self.tasks.len()
    }

    /// The name.
    pub fn get_name(&self) -> (r: &str)
        ensures
            r@ == self@.name,
    {
        self.name.as_str()
    }

    /// Gives the stack another name.
    pub fn set_name(&mut self, name: &str) -> (ret: &mut Self)
        ensures
            (*ret)@ == (StackView { name: name@, ..old(self)@ }),
            *final(self) == *final(ret),
    {
        self.name = name.to_owned();
        self
    }

    /// The description.
    pub fn get_description(&self) -> (r: &str)
        ensures
            r@ == self@.description,
    {
        self.description.as_str()
    }

    /// Gives the stack another description.
    pub fn set_description(&mut self, description: &str) -> (ret: &mut Self)
        ensures
            (*ret)@ == (StackView { description: description@, ..old(self)@ }),
            *final(self) == *final(ret),
    {
        self.description = description.to_owned();
        self
    }

    /// The weight.
    pub fn get_weight(&self) -> (r: u32)
        ensures
            r == self@.weight,
    {
        self.weight
    }

    /// Gives the stack another weight.
    pub fn set_weight(&mut self, weight: u32) -> (ret: &mut Self)
        ensures
            (*ret)@ == (StackView { weight, ..old(self)@ }),
            *final(self) == *final(ret),
    {
        self.weight = weight;
        self
    }

    /// The line that describes the stack.
    pub fn summary(&self) -> (r: String)
        ensures
            r@ == self@.summary(),
    {
        let mut out = String::from_str("TaskStack { name: ");
        out.append(self.name.as_str());
        out.append(", description: ");
        out.append(self.description.as_str());
        out.append(", weight: ");
        out.append(u32_to_string(self.weight).as_str());
        out.append(", tags: ");
        out.append(self.tags.debug().as_str());
        out.append(", tasks: ");
        out.append(u64_to_string(self.tasks.len() as u64).as_str());
        out.append(" }");
        out
    }

    /// Whether the stack carries every tag of `tags`. It carries every tag
    /// of the empty list.
    pub fn has_tags(&self, tags: &[String]) -> (r: bool)
        ensures
            r == has_all_tags(self@.tags, tags.deep_view()),
    {
        self.tags.contains_all(tags)
    }

    /// The tags, in the order in which they were added, each once.
    pub fn get_tags(&self) -> (r: Vec<&str>)
        ensures
            r.deep_view() == self@.tags,
            self@.tags.no_duplicates(),
    {
        self.tags.to_vec()
    }
}

} // verus!
