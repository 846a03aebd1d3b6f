//! The collection of tasks. Each task is stored under the digest of its
//! name, so no two tasks of the collection share a name's digest.

use crate::commands::command_views;
use crate::commands::CommandView;
use crate::commands::Commands;
use crate::error::ErrorView;
use crate::error::HeapError;
use crate::tags::insert_tags;
use crate::tags::remove_tags;
use crate::task::borrowed_views;
use crate::task::identity;
use crate::task::record_line;
use crate::task::record_task;
use crate::task::task_views;
use crate::task::Task;
use crate::task::TaskView;
use crate::text::parse_u32;
use crate::text::parsed_u32;
use vstd::prelude::*;
use vstd::string::*;

verus! {

/// Index of the first task stored under `key`, or the number of tasks where
/// there is none.
pub open spec fn position(tasks: Seq<TaskView>, key: Seq<u8>) -> int
    decreases tasks.len(),
{
    if tasks.len() == 0 || tasks[0].identity() == key {
        0
    } else {
        1 + position(tasks.drop_first(), key)
    }
}

/// Whether a task is stored under `key`.
pub open spec fn holds(tasks: Seq<TaskView>, key: Seq<u8>) -> bool {
    position(tasks, key) < tasks.len()
}

/// Whether no two tasks are stored under one key.
pub open spec fn distinct_keys(tasks: Seq<TaskView>) -> bool {
    forall|i: int, j: int|
        0 <= i < j < tasks.len() ==> (#[trigger] tasks[i]).identity() != (
        #[trigger] tasks[j]).identity()
}

/// The tasks with `task` stored under its key: in the place of the task
/// that had the key, or at the end where none had it.
pub open spec fn stored(tasks: Seq<TaskView>, task: TaskView) -> Seq<TaskView> {
    let at = position(tasks, task.identity());
    if 0 <= at < tasks.len() {
        tasks.update(at, task)
    } else {
        tasks.push(task)
    }
}

/// The tasks without the one stored under `key`.
pub open spec fn without(tasks: Seq<TaskView>, key: Seq<u8>) -> Seq<TaskView> {
    let at = position(tasks, key);
    if 0 <= at < tasks.len() {
        tasks.remove(at)
    } else {
        tasks
    }
}

/// The places of the tasks that carry every tag of `tags`, in order.
pub open spec fn matching_places(tasks: Seq<TaskView>, tags: Seq<Seq<char>>) -> Seq<int>
    decreases tasks.len(),
{
    if tasks.len() == 0 {
        Seq::empty()
    } else if tasks.last().has_tags(tags) {
        matching_places(tasks.drop_last(), tags).push(tasks.len() - 1)
    } else {
        matching_places(tasks.drop_last(), tags)
    }
}

/// The tasks that do not carry every tag of `tags`, in order.
pub open spec fn unmatched(tasks: Seq<TaskView>, tags: Seq<Seq<char>>) -> Seq<TaskView>
    decreases tasks.len(),
{
    if tasks.len() == 0 {
        Seq::empty()
    } else if tasks.last().has_tags(tags) {
        unmatched(tasks.drop_last(), tags)
    } else {
        unmatched(tasks.drop_last(), tags).push(tasks.last())
    }
}

/// The tasks at the given places, in the order of the places.
pub open spec fn picked(tasks: Seq<TaskView>, places: Seq<int>) -> Seq<TaskView> {
    Seq::new(places.len(), |i: int| tasks[places[i]])
}

/// A task after one qualifier took effect. A command that is no qualifier
/// changes nothing.
pub open spec fn qualified(task: TaskView, qualifier: CommandView) -> TaskView {
    match qualifier {
        CommandView::Name(name) => task.with_name(name),
        CommandView::Description(text) => task.with_description(text),
        CommandView::Weight(text) => task.with_weight_text(text),
        CommandView::Tag(tags) => task.with_tags(insert_tags(task.tags, tags)),
        CommandView::Untag(tags) => task.with_tags(remove_tags(task.tags, tags)),
        _ => task,
    }
}

/// A task after each of the qualifiers took effect, in their order.
pub open spec fn qualified_all(task: TaskView, qualifiers: Seq<CommandView>) -> TaskView
    decreases qualifiers.len(),
{
    if qualifiers.len() == 0 {
        task
    } else {
        qualified(qualified_all(task, qualifiers.drop_last()), qualifiers.last())
    }
}

/// The weights among the qualifiers that write no number, in their order.
pub open spec fn rejected_weights(qualifiers: Seq<CommandView>) -> Seq<Seq<char>>
    decreases qualifiers.len(),
{
    if qualifiers.len() == 0 {
        Seq::empty()
    } else {
        let head = rejected_weights(qualifiers.drop_last());
        match qualifiers.last() {
            CommandView::Weight(text) => if parsed_u32(text) is None {
                head.push(text)
            } else {
                head
            },
            _ => head,
        }
    }
}

/// The tags that the tag qualifiers among `qualifiers` list, in order.
pub open spec fn filter_tags(qualifiers: Seq<CommandView>) -> Seq<Seq<char>>
    decreases qualifiers.len(),
{
    if qualifiers.len() == 0 {
        Seq::empty()
    } else {
        let head = filter_tags(qualifiers.drop_last());
        match qualifiers.last() {
            CommandView::Tag(tags) => head + tags,
            _ => head,
        }
    }
}

/// The collection after a push: a task of this name, as the qualifiers
/// shape it, is stored, unless its name is taken.
pub open spec fn pushed(tasks: Seq<TaskView>, name: Seq<char>, qualifiers: Seq<CommandView>)
    -> Result<Seq<TaskView>, ErrorView> {
    if holds(tasks, identity(name)) {
        Err(ErrorView::TaskAlreadyExists(name))
    } else {
        Ok(stored(tasks, qualified_all(TaskView::fresh(name), qualifiers)))
    }
}

/// The collection after an edit: the task of this name is changed as the
/// qualifiers say. Where its name changes it is taken out under its old key
/// and stored under the new one, in the place of the task that had that key
/// if there was one.
pub open spec fn edited(tasks: Seq<TaskView>, name: Seq<char>, qualifiers: Seq<CommandView>)
    -> Result<Seq<TaskView>, ErrorView> {
    let at = position(tasks, identity(name));
    if 0 <= at < tasks.len() {
        let task = qualified_all(tasks[at], qualifiers);
        if task.identity() == identity(name) {
            Ok(tasks.update(at, task))
        } else {
            Ok(stored(tasks.remove(at), task))
        }
    } else {
        Err(ErrorView::TaskNotFound(name))
    }
}

/// The collection after the tags of the task of this name were cleared.
pub open spec fn tags_cleared(tasks: Seq<TaskView>, name: Seq<char>) -> Result<
    Seq<TaskView>,
    ErrorView,
> {
    let at = position(tasks, identity(name));
    if 0 <= at < tasks.len() {
        Ok(tasks.update(at, tasks[at].with_tags(Seq::empty())))
    } else {
        Err(ErrorView::TaskNotFound(name))
    }
}

/// The collection that a list of records describes: each record's task is
/// stored in turn, a later one in the place of an earlier one of its name.
/// The first record that describes no task is the error.
pub open spec fn loaded(records: Seq<Seq<char>>) -> Result<Seq<TaskView>, ErrorView>
    decreases records.len(),
{
    if records.len() == 0 {
        Ok(Seq::empty())
    } else {
        match loaded(records.drop_last()) {
            Err(e) => Err(e),
            Ok(tasks) => match record_task(records.last()) {
                Some(task) => Ok(stored(tasks, task)),
                None => Err(ErrorView::CorruptData(records.last())),
            },
        }
    }
}

/// The records of the tasks, in order.
pub open spec fn records_of(tasks: Seq<TaskView>) -> Seq<Seq<char>> {
    Seq::new(tasks.len(), |i: int| record_line(tasks[i]))
}

/// The first task under a key is at `k` when no task before `k` has the key
/// and `k` is the end or has it.
pub proof fn lemma_position(tasks: Seq<TaskView>, key: Seq<u8>, k: int)
    requires
        0 <= k <= tasks.len(),
        forall|j: int| 0 <= j < k ==> (#[trigger] tasks[j]).identity() != key,
        k == tasks.len() || tasks[k].identity() == key,
    ensures
        position(tasks, key) == k,
    decreases k,
{
    if k > 0 {
        let rest = tasks.drop_first();
        assert forall|j: int| 0 <= j < k - 1 implies (#[trigger] rest[j]).identity() != key by {
            assert(rest[j] == tasks[j + 1]);
        }
        lemma_position(rest, key, k - 1);
    }
}

/// No task before the position of a key has the key, and the task at the
/// position has it unless the position is the end.
pub proof fn lemma_position_is_first(tasks: Seq<TaskView>, key: Seq<u8>)
    ensures
        0 <= position(tasks, key) <= tasks.len(),
        forall|j: int| 0 <= j < position(tasks, key) ==> (#[trigger] tasks[j]).identity() != key,
        position(tasks, key) < tasks.len() ==> tasks[position(tasks, key)].identity() == key,
    decreases tasks.len(),
{
    if !(tasks.len() == 0 || tasks[0].identity() == key) {
        let rest = tasks.drop_first();
        lemma_position_is_first(rest, key);
        let k = position(tasks, key);
        assert forall|j: int| 0 <= j < k implies (#[trigger] tasks[j]).identity() != key by {
            if j > 0 {
                assert(tasks[j] == rest[j - 1]);
            }
        }
        if k < tasks.len() {
            assert(tasks[k] == rest[k - 1]);
        }
    }
}

/// Storing a task keeps the keys distinct, and the task is then found under
/// its key.
pub proof fn lemma_stored(tasks: Seq<TaskView>, task: TaskView)
    requires
        distinct_keys(tasks),
    ensures
        distinct_keys(stored(tasks, task)),
        holds(stored(tasks, task), task.identity()),
        stored(tasks, task)[position(stored(tasks, task), task.identity())] == task,
{
    lemma_position_is_first(tasks, task.identity());
    let at = position(tasks, task.identity());
    let after = stored(tasks, task);
    if at < tasks.len() {
        assert forall|i: int, j: int| 0 <= i < j < after.len() implies (
        #[trigger] after[i]).identity() != (#[trigger] after[j]).identity() by {
            assert(after[i].identity() == tasks[i].identity());
            assert(after[j].identity() == tasks[j].identity());
        }
        lemma_position(after, task.identity(), at);
    } else {
        assert forall|i: int, j: int| 0 <= i < j < after.len() implies (
        #[trigger] after[i]).identity() != (#[trigger] after[j]).identity() by {
            assert(after[i] == tasks[i]);
            if j < tasks.len() {
                assert(after[j] == tasks[j]);
            }
        }
        assert forall|j: int| 0 <= j < tasks.len() implies (#[trigger] after[j]).identity()
            != task.identity() by {
            assert(after[j] == tasks[j]);
        }
        lemma_position(after, task.identity(), tasks.len() as int);
    }
}

/// Taking a task out keeps the keys distinct, and nothing is then found
/// under the key of the task.
pub proof fn lemma_removed(tasks: Seq<TaskView>, at: int)
    requires
        distinct_keys(tasks),
        0 <= at < tasks.len(),
    ensures
        distinct_keys(tasks.remove(at)),
        !holds(tasks.remove(at), tasks[at].identity()),
{
    let after = tasks.remove(at);
    assert forall|i: int, j: int| 0 <= i < j < after.len() implies (#[trigger] after[i]).identity()
        != (#[trigger] after[j]).identity() by {
        let x = if i < at { i } else { i + 1 };
        let y = if j < at { j } else { j + 1 };
        assert(after[i] == tasks[x]);
        assert(after[j] == tasks[y]);
    }
    assert forall|j: int| 0 <= j < after.len() implies (#[trigger] after[j]).identity()
        != tasks[at].identity() by {
        let y = if j < at { j } else { j + 1 };
        assert(after[j] == tasks[y]);
    }
    lemma_position(after, tasks[at].identity(), after.len() as int);
}

/// Changing a task in its place, its key unchanged, keeps the keys
/// distinct.
pub proof fn lemma_updated(tasks: Seq<TaskView>, at: int, task: TaskView)
    requires
        distinct_keys(tasks),
        0 <= at < tasks.len(),
        task.identity() == tasks[at].identity(),
    ensures
        distinct_keys(tasks.update(at, task)),
{
    let after = tasks.update(at, task);
    assert forall|i: int, j: int| 0 <= i < j < after.len() implies (#[trigger] after[i]).identity()
        != (#[trigger] after[j]).identity() by {
        assert(after[i].identity() == tasks[i].identity());
        assert(after[j].identity() == tasks[j].identity());
    }
}

/// The places of the matching tasks are places of the collection, they
/// ascend, and a place is among them exactly when its task matches.
pub proof fn lemma_matching_places(tasks: Seq<TaskView>, tags: Seq<Seq<char>>)
    ensures
        matching_places(tasks, tags).len() <= tasks.len(),
        forall|i: int|
            0 <= i < matching_places(tasks, tags).len() ==> 0 <= (#[trigger] matching_places(tasks, tags)[i])
                < tasks.len() && tasks[matching_places(tasks, tags)[i]].has_tags(tags),
        forall|i: int, j: int|
            0 <= i < j < matching_places(tasks, tags).len() ==> matching_places(tasks, tags)[i] < matching_places(
                tasks,
                tags,
            )[j],
        forall|k: int|
            0 <= k < tasks.len() && (#[trigger] tasks[k]).has_tags(tags) ==> matching_places(
                tasks,
                tags,
            ).contains(k),
    decreases tasks.len(),
{
    if tasks.len() > 0 {
        let head = tasks.drop_last();
        lemma_matching_places(head, tags);
        let all = matching_places(tasks, tags);
        let before = matching_places(head, tags);
        assert forall|i: int| 0 <= i < all.len() implies 0 <= (#[trigger] all[i]) < tasks.len()
            && tasks[all[i]].has_tags(tags) by {
            if i < before.len() {
                assert(all[i] == before[i]);
                assert(tasks[before[i]] == head[before[i]]);
            }
        }
        assert forall|i: int, j: int| 0 <= i < j < all.len() implies all[i] < all[j] by {
            assert(all[i] == before[i]);
            if j < before.len() {
                assert(all[j] == before[j]);
            }
        }
        assert forall|k: int| 0 <= k < tasks.len() && (#[trigger] tasks[k]).has_tags(
            tags,
        ) implies all.contains(k) by {
            if k < head.len() {
                assert(head[k] == tasks[k]);
                let i = before.index_of(k);
                assert(all[i] == k);
            } else {
                assert(all[all.len() - 1] == k);
            }
        }
    }
}

/// Every task matches the empty filter.
pub proof fn lemma_matching_all(tasks: Seq<TaskView>)
    ensures
        matching_places(tasks, Seq::empty()) == Seq::new(tasks.len(), |i: int| i),
    decreases tasks.len(),
{
    if tasks.len() > 0 {
        lemma_matching_all(tasks.drop_last());
        assert(tasks.last().has_tags(Seq::empty()));
    }
    assert(matching_places(tasks, Seq::empty()) =~= Seq::new(tasks.len(), |i: int| i));
}

/// A rename within an edit leaves the description, the weight, the tags and
/// the place in the life cycle as they were: the task found under the new
/// name differs from the one edited in its name alone, and nothing is found
/// under the old name any more.
pub proof fn lemma_rename_preserves_attributes(
    tasks: Seq<TaskView>,
    name: Seq<char>,
    new_name: Seq<char>,
)
    requires
        distinct_keys(tasks),
        holds(tasks, identity(name)),
        identity(new_name) != identity(name),
    ensures
        edited(tasks, name, seq![CommandView::Name(new_name)]) is Ok,
        ({
            let before = tasks[position(tasks, identity(name))];
            let after = edited(tasks, name, seq![CommandView::Name(new_name)])->Ok_0;
            &&& distinct_keys(after)
            &&& !holds(after, identity(name))
            &&& holds(after, identity(new_name))
            &&& after[position(after, identity(new_name))] == before.with_name(new_name)
        }),
{
    let at = position(tasks, identity(name));
    lemma_position_is_first(tasks, identity(name));
    let qualifiers = seq![CommandView::Name(new_name)];
    assert(qualifiers.drop_last() =~= Seq::empty());
    assert(qualified_all(tasks[at], Seq::empty()) == tasks[at]);
    assert(qualifiers.last() == CommandView::Name(new_name));
    let task = qualified_all(tasks[at], qualifiers);
    assert(task == tasks[at].with_name(new_name));
    lemma_removed(tasks, at);
    let rest = tasks.remove(at);
    lemma_stored(rest, task);
    let after = stored(rest, task);
    lemma_position_is_first(rest, identity(name));
    lemma_position_is_first(rest, identity(new_name));
    assert forall|j: int| 0 <= j < after.len() implies (#[trigger] after[j]).identity()
        != identity(name) by {
        if j < rest.len() && j != position(rest, identity(new_name)) {
            assert(after[j] == rest[j]);
        }
    }
    lemma_position(after, identity(name), after.len() as int);
}

/// Qualifiers that hold no new name leave the name of the task alone, and
/// qualifiers that hold only a new name leave everything else alone.
pub proof fn lemma_qualified_keeps(task: TaskView, qualifiers: Seq<CommandView>)
    ensures
        (forall|i: int| 0 <= i < qualifiers.len() ==> !(#[trigger] qualifiers[i] is Name))
            ==> qualified_all(task, qualifiers).name == task.name,
        (forall|i: int| 0 <= i < qualifiers.len() ==> (#[trigger] qualifiers[i] is Name))
            ==> qualified_all(task, qualifiers) == task.with_name(
            qualified_all(task, qualifiers).name,
        ),
        (forall|i: int| 0 <= i < qualifiers.len() ==> !(#[trigger] qualifiers[i] is Description))
            ==> qualified_all(task, qualifiers).description == task.description,
        (forall|i: int| 0 <= i < qualifiers.len() ==> !(#[trigger] qualifiers[i] is Weight))
            ==> qualified_all(task, qualifiers).weight == task.weight,
        (forall|i: int|
            0 <= i < qualifiers.len() ==> !(#[trigger] qualifiers[i] is Tag) && !(
            qualifiers[i] is Untag)) ==> qualified_all(task, qualifiers).tags == task.tags,
        qualified_all(task, qualifiers).status == task.status,
    decreases qualifiers.len(),
{
    if qualifiers.len() > 0 {
        let head = qualifiers.drop_last();
        lemma_qualified_keeps(task, head);
        assert forall|i: int| 0 <= i < head.len() implies head[i] == qualifiers[i] by {}
        let last = qualifiers[qualifiers.len() - 1];
        assert(last == qualifiers.last());
        if forall|i: int| 0 <= i < qualifiers.len() ==> !(#[trigger] qualifiers[i] is Name) {
            assert forall|i: int| 0 <= i < head.len() implies !(#[trigger] head[i] is Name) by {
                assert(head[i] == qualifiers[i]);
            }
        }
        if forall|i: int| 0 <= i < qualifiers.len() ==> (#[trigger] qualifiers[i] is Name) {
            assert forall|i: int| 0 <= i < head.len() implies (#[trigger] head[i] is Name) by {
                assert(head[i] == qualifiers[i]);
            }
        }
        if forall|i: int| 0 <= i < qualifiers.len() ==> !(#[trigger] qualifiers[i] is Description) {
            assert forall|i: int| 0 <= i < head.len() implies !(
            #[trigger] head[i] is Description) by {
                assert(head[i] == qualifiers[i]);
            }
        }
        if forall|i: int| 0 <= i < qualifiers.len() ==> !(#[trigger] qualifiers[i] is Weight) {
            assert forall|i: int| 0 <= i < head.len() implies !(#[trigger] head[i] is Weight) by {
                assert(head[i] == qualifiers[i]);
            }
        }
        if forall|i: int|
            0 <= i < qualifiers.len() ==> !(#[trigger] qualifiers[i] is Tag) && !(
            qualifiers[i] is Untag) {
            assert forall|i: int| 0 <= i < head.len() implies !(#[trigger] head[i] is Tag) && !(
            head[i] is Untag) by {
                assert(head[i] == qualifiers[i]);
            }
        }
    }
}

/// What is left after the matching tasks were taken out comes from the
/// collection, so its keys are distinct where the collection's are.
pub proof fn lemma_unmatched(tasks: Seq<TaskView>, tags: Seq<Seq<char>>)
    requires
        distinct_keys(tasks),
    ensures
        distinct_keys(unmatched(tasks, tags)),
        forall|i: int|
            0 <= i < unmatched(tasks, tags).len() ==> exists|k: int|
                0 <= k < tasks.len() && tasks[k] == #[trigger] unmatched(tasks, tags)[i],
    decreases tasks.len(),
{
    if tasks.len() > 0 {
        let head = tasks.drop_last();
        assert forall|i: int, j: int| 0 <= i < j < head.len() implies (
        #[trigger] head[i]).identity() != (#[trigger] head[j]).identity() by {
            assert(head[i] == tasks[i]);
            assert(head[j] == tasks[j]);
        }
        lemma_unmatched(head, tags);
        let before = unmatched(head, tags);
        let after = unmatched(tasks, tags);
        assert forall|i: int| 0 <= i < after.len() implies exists|k: int|
            0 <= k < tasks.len() && tasks[k] == #[trigger] after[i] by {
            if i < before.len() {
                assert(after[i] == before[i]);
                let k = choose|k: int| 0 <= k < head.len() && head[k] == before[i];
                assert(tasks[k] == head[k]);
            } else {
                assert(tasks[tasks.len() - 1] == after[i]);
            }
        }
        assert forall|i: int, j: int| 0 <= i < j < after.len() implies (
        #[trigger] after[i]).identity() != (#[trigger] after[j]).identity() by {
            if j < before.len() {
                assert(after[i] == before[i]);
                assert(after[j] == before[j]);
            } else {
                assert(after[i] == before[i]);
                let k = choose|k: int| 0 <= k < head.len() && head[k] == before[i];
                assert(tasks[k] == head[k]);
                assert(after[j] == tasks[tasks.len() - 1]);
            }
        }
    }
}

/// The places that a list of indices holds.
pub open spec fn places(indices: Seq<usize>) -> Seq<int> {
    Seq::new(indices.len(), |i: int| indices[i] as int)
}

/// Whether two keys are the same.
pub fn same_key(a: &[u8; 32], b: &[u8; 32]) -> (r: bool)
    ensures
        r == (a@ == b@),
{
    let mut i: usize = 0;
    while i < 32
        invariant
            i <= 32,
            forall|j: int| 0 <= j < i ==> a@[j] == b@[j],
        decreases 32 - i,
    {
        if a[i] != b[i] {
            return false;
        }
        i += 1;
    }
    assert(a@ =~= b@);
    true
}

/// Lets one qualifier take effect on a task. A command that is no
/// qualifier changes nothing.
pub fn apply_qualifier(task: &mut Task, qualifier: &Commands)
    ensures
        final(task)@ == qualified(old(task)@, qualifier@),
{
    match qualifier {
        Commands::Name(name) => {
            task.set_name(name.as_str());
        },
        Commands::Description(text) => {
            task.set_desc(text.as_str());
        },
        Commands::Weight(text) => {
            task.set_weight(text.as_str());
        },
        Commands::Tag(tags) => {
            task.add_tags(tags);
        },
        Commands::Untag(tags) => {
            task.remove_tags(tags);
        },
        _ => {},
    }
}

/// Lets each of the qualifiers take effect on a task, in their order.
pub fn apply_qualifiers(task: &mut Task, qualifiers: &[Commands])
    ensures
        final(task)@ == qualified_all(old(task)@, command_views(qualifiers@)),
{
    let ghost all = command_views(qualifiers@);
    let mut i: usize = 0;
    assert(all.take(0) =~= Seq::empty());
    while i < qualifiers.len()
        invariant
            i <= qualifiers.len(),
            all == command_views(qualifiers@),
            task@ == qualified_all(old(task)@, all.take(i as int)),
        decreases qualifiers.len() - i,
    {
        proof {
            let next = all.take(i + 1);
            assert(next.drop_last() =~= all.take(i as int));
            assert(next.last() == qualifiers@[i as int]@);
        }
        apply_qualifier(task, &qualifiers[i]);
        i += 1;
    }
    assert(all.take(qualifiers.len() as int) =~= all);
}

/// The weights among the qualifiers that write no number, in their order.
pub fn find_rejected_weights(qualifiers: &[Commands]) -> (r: Vec<String>)
    ensures
        r.deep_view() == rejected_weights(command_views(qualifiers@)),
{
    let ghost all = command_views(qualifiers@);
    let mut out: Vec<String> = Vec::new();
    let mut i: usize = 0;
    assert(all.take(0) =~= Seq::empty());
    assert(out.deep_view() =~= Seq::empty());
    while i < qualifiers.len()
        invariant
            i <= qualifiers.len(),
            all == command_views(qualifiers@),
            out.deep_view() == rejected_weights(all.take(i as int)),
        decreases qualifiers.len() - i,
    {
        proof {
            let next = all.take(i + 1);
            assert(next.drop_last() =~= all.take(i as int));
            assert(next.last() == qualifiers@[i as int]@);
        }
        match &qualifiers[i] {
            Commands::Weight(text) => {
                if parse_u32(text.as_str()).is_none() {
                    let ghost before = out.deep_view();
                    out.push(text.clone());
                    assert(out.deep_view() =~= before.push(text@));
                }
            },
            _ => {},
        }
        i += 1;
    }
    assert(all.take(qualifiers.len() as int) =~= all);
    out
}

/// The tags that the tag qualifiers among `qualifiers` list, in order.
pub fn collect_filter_tags(qualifiers: &[Commands]) -> (r: Vec<String>)
    ensures
        r.deep_view() == filter_tags(command_views(qualifiers@)),
{
    let ghost all = command_views(qualifiers@);
    let mut out: Vec<String> = Vec::new();
    let mut i: usize = 0;
    assert(all.take(0) =~= Seq::empty());
    assert(out.deep_view() =~= Seq::empty());
    while i < qualifiers.len()
        invariant
            i <= qualifiers.len(),
            all == command_views(qualifiers@),
            out.deep_view() == filter_tags(all.take(i as int)),
        decreases qualifiers.len() - i,
    {
        proof {
            let next = all.take(i + 1);
            assert(next.drop_last() =~= all.take(i as int));
            assert(next.last() == qualifiers@[i as int]@);
        }
        match &qualifiers[i] {
            Commands::Tag(tags) => {
                let ghost head = out.deep_view();
                let mut j: usize = 0;
                while j < tags.len()
                    invariant
                        j <= tags.len(),
                        out.deep_view() == head + tags.deep_view().take(j as int),
                    decreases tags.len() - j,
                {
                    let ghost before = out.deep_view();
                    out.push(tags[j].clone());
                    assert(out.deep_view() =~= before.push(tags@[j as int]@));
                    assert(head + tags.deep_view().take(j + 1) =~= before.push(tags@[j as int]@));
                    j += 1;
                }
                assert(tags.deep_view().take(tags.len() as int) =~= tags.deep_view());
            },
            _ => {},
        }
        i += 1;
    }
    assert(all.take(qualifiers.len() as int) =~= all);
    out
}

/// The collection of tasks. Its view lists the tasks in the order in which
/// they were stored; no two of them share a key.
#[derive(Debug)]
pub struct TaskHeap {
    tasks: Vec<Task>,
}

impl View for TaskHeap {
    type V = Seq<TaskView>;

    closed spec fn view(&self) -> Seq<TaskView> {
        task_views(self.tasks@)
    }
}

impl TaskHeap {
    #[verifier::type_invariant]
    spec fn keyed(&self) -> bool {
        distinct_keys(task_views(self.tasks@))
    }

    /// Moves the tasks out and leaves the collection empty.
    fn take_tasks(&mut self) -> (tasks: Vec<Task>)
        ensures
            task_views(tasks@) == old(self)@,
            final(self)@ == Seq::<TaskView>::empty(),
    {
        let mut tasks: Vec<Task> = Vec::new();
        assert(task_views(tasks@) =~= Seq::empty());
        core::mem::swap(&mut self.tasks, &mut tasks);
        tasks
    }

    /// The empty collection.
    pub fn new() -> (r: TaskHeap)
        ensures
            r@ == Seq::<TaskView>::empty(),
    {
        let tasks: Vec<Task> = Vec::new();
        assert(task_views(tasks@) =~= Seq::empty());
        TaskHeap { tasks }
    }

    /// How many tasks there are.
    pub fn len(&self) -> (r: usize)
        ensures
            r == self@.len(),
            distinct_keys(self@),
    {
        proof {
            use_type_invariant(self);
        }
        self.tasks.len()
    }

    /// Whether there is no task.
    pub fn is_empty(&self) -> (r: bool)
        ensures
            r == (self@.len() == 0),
    {
        self.tasks.len() == 0
    }

    /// The place of the task stored under `key`, if there is one.
    pub fn find(&self, key: &[u8; 32]) -> (r: Option<usize>)
        ensures
            r is Some == holds(self@, key@),
            r is Some ==> r->0 == position(self@, key@),
    {
        let mut i: usize = 0;
        while i < self.tasks.len()
            invariant
                i <= self.tasks.len(),
                forall|j: int| 0 <= j < i ==> (#[trigger] self@[j]).identity() != key@,
            decreases self.tasks.len() - i,
        {
            let here = self.tasks[i].get_hash();
            if same_key(&here, key) {
                proof {
                    lemma_position(self@, key@, i as int);
                }
                return Some(i);
            }
            i += 1;
        }
        proof {
            lemma_position(self@, key@, self@.len() as int);
        }
        None
    }

    /// Whether a task is stored under `key`.
    pub fn contains_key(&self, key: &[u8; 32]) -> (r: bool)
        ensures
            r == holds(self@, key@),
    {
        self.find(key).is_some()
    }

    /// The task stored under `key`, if there is one.
    pub fn get(&self, key: &[u8; 32]) -> (r: Option<&Task>)
        ensures
            r is Some == holds(self@, key@),
            r is Some ==> r->0@ == self@[position(self@, key@)],
    {
        match self.find(key) {
            Some(at) => Some(&self.tasks[at]),
            None => None,
        }
    }

    /// The task at a place, if the place is one of the collection.
    pub fn get_at(&self, at: usize) -> (r: Option<&Task>)
        ensures
            r is Some == (at < self@.len()),
            r is Some ==> r->0@ == self@[at as int],
    {
        if at < self.tasks.len() {
            Some(&self.tasks[at])
        } else {
            None
        }
    }

    /// Stores a task under its key: in the place of the task that had the
    /// key, or at the end where none had it.
    pub fn insert(&mut self, task: Task)
        ensures
            final(self)@ == stored(old(self)@, task@),
            distinct_keys(final(self)@),
    {
        proof {
            use_type_invariant(&*self);
            lemma_stored(self@, task@);
        }
        let key = task.get_hash();
        let found = self.find(&key);
        let mut tasks = self.take_tasks();
        let ghost before = task_views(tasks@);
        match found {
            Some(at) => {
                tasks.set(at, task);
                assert(task_views(tasks@) =~= before.update(at as int, task@));
            },
            None => {
                tasks.push(task);
                assert(task_views(tasks@) =~= before.push(task@));
            },
        }
        self.tasks = tasks;
    }

    /// Takes out the task at a place, if the place is one of the collection.
    pub fn remove_at(&mut self, at: usize) -> (r: Option<Task>)
        ensures
            r is Some == (at < old(self)@.len()),
            r is Some ==> r->0@ == old(self)@[at as int] && final(self)@ == old(self)@.remove(
                at as int,
            ),
            r is None ==> final(self)@ == old(self)@,
            distinct_keys(final(self)@),
    {
        proof {
            use_type_invariant(&*self);
        }
        if at >= self.tasks.len() {
            return None;
        }
        proof {
            lemma_removed(self@, at as int);
        }
        let mut tasks = self.take_tasks();
        let ghost before = task_views(tasks@);
        let task = tasks.remove(at);
        assert(task_views(tasks@) =~= before.remove(at as int));
        self.tasks = tasks;
        Some(task)
    }

    /// Takes out the task stored under `key`, if there is one.
    pub fn remove(&mut self, key: &[u8; 32]) -> (r: Option<Task>)
        ensures
            r is Some == holds(old(self)@, key@),
            r is Some ==> r->0@ == old(self)@[position(old(self)@, key@)],
            final(self)@ == without(old(self)@, key@),
            distinct_keys(final(self)@),
    {
        proof {
            use_type_invariant(&*self);
            lemma_position_is_first(self@, key@);
        }
        match self.find(key) {
            Some(at) => self.remove_at(at),
            None => None,
        }
    }

    /// Takes out every task that carries every tag of `tags`.
    pub fn remove_matching(&mut self, tags: &[String])
        ensures
            final(self)@ == unmatched(old(self)@, tags.deep_view()),
            distinct_keys(final(self)@),
    {
        proof {
            use_type_invariant(&*self);
            lemma_unmatched(self@, tags.deep_view());
        }
        let mut tasks = self.take_tasks();
        let ghost all = task_views(tasks@);
        let ghost mut done: int = 0;
        let mut i: usize = 0;
        assert(all.take(0) =~= Seq::empty());
        assert(all.skip(0) =~= all);
        assert(task_views(tasks@).take(0) =~= Seq::empty());
        while i < tasks.len()
            invariant
                i <= tasks.len(),
                0 <= done <= all.len(),
                tasks@.len() - i == all.len() - done,
                task_views(tasks@).take(i as int) == unmatched(all.take(done), tags.deep_view()),
                task_views(tasks@).skip(i as int) == all.skip(done),
            decreases tasks.len() - i,
        {
            let ghost before = task_views(tasks@);
            proof {
                assert(before.skip(i as int)[0] == all.skip(done)[0]);
                assert(before[i as int] == all[done]);
                let next = all.take(done + 1);
                assert(next.drop_last() =~= all.take(done));
                assert(next.last() == all[done]);
            }
            if tasks[i].has_tags(tags) {
                tasks.remove(i);
                proof {
                    let after = task_views(tasks@);
                    assert(after =~= before.remove(i as int));
                    assert(after.take(i as int) =~= before.take(i as int));
                    assert(after.skip(i as int) =~= before.skip(i as int).drop_first());
                    assert(all.skip(done).drop_first() =~= all.skip(done + 1));
                }
            } else {
                proof {
                    assert(before.take(i + 1) =~= before.take(i as int).push(before[i as int]));
                    assert(before.skip(i + 1) =~= before.skip(i as int).drop_first());
                    assert(all.skip(done).drop_first() =~= all.skip(done + 1));
                }
                i += 1;
            }
            proof {
                done = done + 1;
            }
        }
        proof {
            assert(all.take(all.len() as int) =~= all);
            assert(task_views(tasks@).take(tasks@.len() as int) =~= task_views(tasks@));
        }
        self.tasks = tasks;
    }

    /// Takes out every task.
    pub fn clear(&mut self)
        ensures
            final(self)@ == Seq::<TaskView>::empty(),
    {
        self.take_tasks();
    }

    /// The places of the tasks that carry every tag of `tags`, in order.
    /// With no tags these are all places.
    pub fn matching(&self, tags: &[String]) -> (r: Vec<usize>)
        ensures
            places(r@) == matching_places(self@, tags.deep_view()),
    {
        let mut out: Vec<usize> = Vec::new();
        let mut i: usize = 0;
        assert(self@.take(0) =~= Seq::empty());
        assert(places(out@) =~= Seq::empty());
        while i < self.tasks.len()
            invariant
                i <= self.tasks.len(),
                places(out@) == matching_places(self@.take(i as int), tags.deep_view()),
            decreases self.tasks.len() - i,
        {
            proof {
                let next = self@.take(i + 1);
                assert(next.drop_last() =~= self@.take(i as int));
                assert(next.last() == self@[i as int]);
            }
            if self.tasks[i].has_tags(tags) {
                let ghost before = places(out@);
                out.push(i);
                assert(places(out@) =~= before.push(i as int));
            }
            i += 1;
        }
        assert(self@.take(self.tasks.len() as int) =~= self@);
        out
    }

    /// Copies of the tasks at the given places, in the order of the places.
    pub fn copies(&self, at: &Vec<usize>) -> (r: Vec<Task>)
        requires
            forall|i: int| 0 <= i < at@.len() ==> at@[i] < self@.len(),
        ensures
            task_views(r@) == picked(self@, places(at@)),
    {
        let mut out: Vec<Task> = Vec::new();
        let mut i: usize = 0;
        while i < at.len()
            invariant
                i <= at.len(),
                forall|j: int| 0 <= j < at@.len() ==> at@[j] < self@.len(),
                out@.len() == i,
                forall|j: int| 0 <= j < i ==> (#[trigger] out@[j])@ == self@[at@[j] as int],
            decreases at.len() - i,
        {
            out.push(self.tasks[at[i]].clone());
            i += 1;
        }
        assert(task_views(out@) =~= picked(self@, places(at@)));
        out
    }

    /// Adds a task of this name, as the qualifiers shape it, unless the name
    /// is taken.
    pub fn push(&mut self, name: &str, qualifiers: &[Commands]) -> (r: Result<(), HeapError>)
        ensures
            match r {
                Ok(_) => pushed(old(self)@, name@, command_views(qualifiers@)) == Ok::<
                    Seq<TaskView>,
                    ErrorView,
                >(final(self)@),
                Err(e) => pushed(old(self)@, name@, command_views(qualifiers@)) == Err::<
                    Seq<TaskView>,
                    ErrorView,
                >(e@) && final(self)@ == old(self)@,
            },
    {
        if self.contains_key(&Task::hash_fn(name)) {
            return Err(HeapError::TaskAlreadyExists(name.to_owned()));
        }
        let mut task = Task::from_arg(name);
        apply_qualifiers(&mut task, qualifiers);
        self.insert(task);
        Ok(())
    }

    /// Changes the task of this name as the qualifiers say. Where the name
    /// changes, the task leaves its old key and is stored under the new one.
    pub fn edit(&mut self, name: &str, qualifiers: &[Commands]) -> (r: Result<(), HeapError>)
        ensures
            match r {
                Ok(_) => edited(old(self)@, name@, command_views(qualifiers@)) == Ok::<
                    Seq<TaskView>,
                    ErrorView,
                >(final(self)@),
                Err(e) => edited(old(self)@, name@, command_views(qualifiers@)) == Err::<
                    Seq<TaskView>,
                    ErrorView,
                >(e@) && final(self)@ == old(self)@,
            },
    {
        proof {
            use_type_invariant(&*self);
            lemma_position_is_first(self@, identity(name@));
        }
        let key = Task::hash_fn(name);
        let at = match self.find(&key) {
            Some(at) => at,
            None => {
                return Err(HeapError::TaskNotFound(name.to_owned()));
            },
        };
        let ghost before = self@;
        let taken = self.remove_at(at);
        let mut task = taken.unwrap();
        apply_qualifiers(&mut task, qualifiers);
        if same_key(&task.get_hash(), &key) {
            proof {
                lemma_updated(before, at as int, task@);
            }
            let mut tasks = self.take_tasks();
            let ghost rest = task_views(tasks@);
            assert(rest.len() == before.len() - 1);
            tasks.insert(at, task);
            assert(task_views(tasks@) =~= rest.insert(at as int, task@));
            assert(rest.insert(at as int, task@) =~= before.update(at as int, task@));
            self.tasks = tasks;
        } else {
            self.insert(task);
        }
        Ok(())
    }

    /// Takes every tag off the task of this name.
    pub fn clear_tags(&mut self, name: &str) -> (r: Result<(), HeapError>)
        ensures
            match r {
                Ok(_) => tags_cleared(old(self)@, name@) == Ok::<Seq<TaskView>, ErrorView>(
                    final(self)@,
                ),
                Err(e) => tags_cleared(old(self)@, name@) == Err::<Seq<TaskView>, ErrorView>(e@)
                    && final(self)@ == old(self)@,
            },
    {
        proof {
            use_type_invariant(&*self);
            lemma_position_is_first(self@, identity(name@));
        }
        let key = Task::hash_fn(name);
        let at = match self.find(&key) {
            Some(at) => at,
            None => {
                return Err(HeapError::TaskNotFound(name.to_owned()));
            },
        };
        let ghost before = self@;
        let taken = self.remove_at(at);
        let mut task = taken.unwrap();
        task.clear_tags();
        proof {
            lemma_updated(before, at as int, task@);
        }
        let mut tasks = self.take_tasks();
        let ghost rest = task_views(tasks@);
        assert(rest.len() == before.len() - 1);
        tasks.insert(at, task);
        assert(task_views(tasks@) =~= rest.insert(at as int, task@));
        assert(rest.insert(at as int, task@) =~= before.update(at as int, task@));
        self.tasks = tasks;
        Ok(())
    }

    /// Reads a collection from its records.
    pub fn from_records(records: &Vec<String>) -> (r: Result<TaskHeap, HeapError>)
        ensures
            match r {
                Ok(heap) => loaded(records.deep_view()) == Ok::<Seq<TaskView>, ErrorView>(heap@),
                Err(e) => loaded(records.deep_view()) == Err::<Seq<TaskView>, ErrorView>(e@),
            },
    {
        let mut heap = TaskHeap::new();
        let ghost all = records.deep_view();
        let mut i: usize = 0;
        assert(all.take(0) =~= Seq::empty());
        while i < records.len()
            invariant
                i <= records.len(),
                all == records.deep_view(),
                loaded(all.take(i as int)) == Ok::<Seq<TaskView>, ErrorView>(heap@),
            decreases records.len() - i,
        {
            proof {
                let next = all.take(i + 1);
                assert(next.drop_last() =~= all.take(i as int));
                assert(next.last() == records@[i as int]@);
            }
            match Task::from_str(records[i].as_str()) {
                Ok(task) => {
                    heap.insert(task);
                },
                Err(e) => {
                    proof {
                        lemma_loaded_prefix(all, i + 1);
                    }
                    return Err(e);
                },
            }
            i += 1;
        }
        assert(all.take(records.len() as int) =~= all);
        Ok(heap)
    }

    /// The records of the tasks, in order.
    pub fn to_records(&self) -> (r: Vec<String>)
        ensures
            r.deep_view() == records_of(self@),
    {
        let mut out: Vec<String> = Vec::new();
        let mut i: usize = 0;
        while i < self.tasks.len()
            invariant
                i <= self.tasks.len(),
                out@.len() == i,
                forall|j: int| 0 <= j < i ==> (#[trigger] out@[j])@ == record_line(self@[j]),
            decreases self.tasks.len() - i,
        {
            out.push(self.tasks[i].to_record());
            i += 1;
        }
        assert(out.deep_view() =~= records_of(self@));
        out
    }
}

/// The collection to start from, given what loading the store came to: the
/// empty collection where there is no store yet, the collection that was
/// loaded, or the error that loading came to.
pub fn or_empty(loaded: Result<TaskHeap, HeapError>) -> (r: Result<TaskHeap, HeapError>)
    ensures
        match loaded {
            Ok(heap) => r is Ok && r->Ok_0@ == heap@,
            Err(HeapError::FileDoesNotExist) => r is Ok && r->Ok_0@ == Seq::<TaskView>::empty(),
            Err(e) => r is Err && r->Err_0@ == e@,
        },
{
    match loaded {
        Ok(heap) => Ok(heap),
        Err(HeapError::FileDoesNotExist) => Ok(TaskHeap::new()),
        Err(e) => Err(e),
    }
}

/// Where a prefix of the records cannot be read, the records cannot, and
/// the error is that of the prefix.
pub proof fn lemma_loaded_prefix(records: Seq<Seq<char>>, k: int)
    requires
        0 <= k <= records.len(),
        loaded(records.take(k)) is Err,
    ensures
        loaded(records) == loaded(records.take(k)),
    decreases records.len() - k,
{
    if k < records.len() {
        let next = records.take(k + 1);
        assert(next.drop_last() =~= records.take(k));
        lemma_loaded_prefix(records, k + 1);
    } else {
        assert(records.take(k) =~= records);
    }
}

/// The tasks of the collection that carry every tag of `tags`, in order.
/// With no tags these are all tasks.
pub fn extract_array_by_tag<'a>(map: &'a TaskHeap, tags: &[String]) -> (r: Vec<&'a Task>)
    ensures
        borrowed_views(r@) == picked(map@, matching_places(map@, tags.deep_view())),
{
    let at = map.matching(tags);
    proof {
        lemma_matching_places(map@, tags.deep_view());
    }
    let mut out: Vec<&'a Task> = Vec::new();
    let mut i: usize = 0;
    while i < at.len()
        invariant
            i <= at.len(),
            places(at@) == matching_places(map@, tags.deep_view()),
            forall|j: int| 0 <= j < at@.len() ==> 0 <= #[trigger] places(at@)[j] < map@.len(),
            out@.len() == i,
            forall|j: int| 0 <= j < i ==> (#[trigger] out@[j])@ == map@[at@[j] as int],
        decreases at.len() - i,
    {
        assert(places(at@)[i as int] == at@[i as int]);
        match map.get_at(at[i]) {
            Some(task) => {
                out.push(task);
            },
            None => {},
        }
        i += 1;
    }
    assert(borrowed_views(out@) =~= picked(map@, places(at@)));
    out
}

} // verus!
