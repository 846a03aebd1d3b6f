//! The task: a name, a description, a weight, a set of tags and a place in
//! the life cycle. A task is known by the digest of its name.

use crate::error::ErrorView;
use crate::error::HeapError;
use crate::tags::has_all_tags;
use crate::tags::insert_tag;
use crate::tags::insert_tags;
use crate::tags::remove_tag;
use crate::tags::remove_tags;
use crate::tags::TagSet;
use crate::text::decimal;
use crate::text::free_of;
use crate::text::is_digit;
use crate::text::is_word;
use crate::text::lemma_decimal_digits;
use crate::text::lemma_joined_free_of;
use crate::text::lemma_parse_decimal;
use crate::text::lemma_split_first;
use crate::text::lemma_split_whole;
use crate::text::lemma_trimmed_fixed;
use crate::text::lemma_words_of_joined;
use crate::tags::lemma_insert_tags_fresh;
use crate::text::joined;
use crate::text::lemma_split_nonempty;
use crate::text::parse_u32;
use crate::text::parsed_u32;
use crate::text::split;
use crate::text::split_on;
use crate::text::split_words;
use crate::text::trim;
use crate::text::trimmed;
use crate::text::u32_to_string;
use crate::text::words;
use vstd::prelude::*;
use vstd::string::*;
use vstd::utf8::encode_utf8;

verus! {

/// The weight of a task that was given none.
pub const DEFAULT_WEIGHT: u32 = 100;

/// The SHA-256 digest of a sequence of bytes.
pub uninterp spec fn sha256(data: Seq<u8>) -> Seq<u8>;

/// `sha2::Sha256::digest`: the result is the SHA-256 digest of `data`, a
/// function of the bytes alone.
#[verifier::external_body]
fn sha256_digest(data: &[u8]) -> (r: [u8; 32])
    ensures
        r@ == sha256(data@),
{
    <sha2::Sha256 as sha2::Digest>::digest(data).into()
}

/// The key under which a task named `name` is stored: the digest of the
/// name's UTF-8 bytes.
pub open spec fn identity(name: Seq<char>) -> Seq<u8> {
    sha256(encode_utf8(name))
}

/// Where a task stands in its life cycle.
#[derive(Clone, Copy, Debug, PartialEq, Eq, Structural)]
pub enum Status {
    /// Waiting; not yet up for work.
    Unstaged,
    /// Up for work.
    Staged,
    /// Done.
    Finished,
}

/// A unit of work.
#[derive(Debug)]
pub struct Task {
    name: String,
    description: String,
    weight: u32,
    tags: TagSet,
    status: Status,
}

/// What a [`Task`] holds. The tags are in the order in which they were
/// added, each once.
pub struct TaskView {
    pub name: Seq<char>,
    pub description: Seq<char>,
    pub weight: u32,
    pub tags: Seq<Seq<char>>,
    pub status: Status,
}

impl TaskView {
    /// A task as it is first made: no description, the default weight, no
    /// tags, not staged.
    pub open spec fn fresh(name: Seq<char>) -> TaskView {
        TaskView {
            name,
            description: Seq::empty(),
            weight: DEFAULT_WEIGHT,
            tags: Seq::empty(),
            status: Status::Unstaged,
        }
    }

    /// The key under which the task is stored.
    pub open spec fn identity(self) -> Seq<u8> {
        identity(self.name)
    }

    /// Whether the task carries every tag of `wanted`.
    pub open spec fn has_tags(self, wanted: Seq<Seq<char>>) -> bool {
        has_all_tags(self.tags, wanted)
    }

    /// The task under another name.
    pub open spec fn with_name(self, name: Seq<char>) -> TaskView {
        TaskView { name, ..self }
    }

    /// The task with another description.
    pub open spec fn with_description(self, description: Seq<char>) -> TaskView {
        TaskView { description, ..self }
    }

    /// The task with another weight.
    pub open spec fn with_weight(self, weight: u32) -> TaskView {
        TaskView { weight, ..self }
    }

    /// The task with the weight that `text` writes, or with the default
    /// weight where `text` writes none.
    pub open spec fn with_weight_text(self, text: Seq<char>) -> TaskView {
        match parsed_u32(text) {
            Some(weight) => self.with_weight(weight),
            None => self.with_weight(DEFAULT_WEIGHT),
        }
    }

    /// The task with other tags.
    pub open spec fn with_tags(self, tags: Seq<Seq<char>>) -> TaskView {
        TaskView { tags, ..self }
    }

    /// The task at another place in its life cycle.
    pub open spec fn with_status(self, status: Status) -> TaskView {
        TaskView { status, ..self }
    }

    /// The task after a step towards `to`, as far as the life cycle allows
    /// it: any task can be finished, only a waiting task can be staged, and
    /// only a staged task can go back to waiting. Where the step is not
    /// allowed the task stays as it is.
    pub open spec fn moved(self, to: Status) -> TaskView {
        match to {
            Status::Finished => self.with_status(Status::Finished),
            Status::Staged => if self.status == Status::Unstaged {
                self.with_status(Status::Staged)
            } else {
                self
            },
            Status::Unstaged => if self.status == Status::Staged {
                self.with_status(Status::Unstaged)
            } else {
                self
            },
        }
    }
}

/// The views of a list of tasks, in order.
pub open spec fn task_views(tasks: Seq<Task>) -> Seq<TaskView> {
    Seq::new(tasks.len(), |i: int| tasks[i]@)
}

/// The views of a list of borrowed tasks, in order.
pub open spec fn borrowed_views(tasks: Seq<&Task>) -> Seq<TaskView> {
    Seq::new(tasks.len(), |i: int| tasks[i]@)
}

/// Every task carries the tags of the empty filter.
pub proof fn lemma_has_no_tags(task: TaskView)
    ensures
        task.has_tags(Seq::empty()),
{
}

/// A task passes a filter exactly when each tag of the filter is among the
/// tags of the task.
pub proof fn lemma_has_tags_is_intersection(task: TaskView, wanted: Seq<Seq<char>>)
    ensures
        task.has_tags(wanted) <==> wanted.to_set().subset_of(task.tags.to_set()),
{
    if task.has_tags(wanted) {
        assert forall|t: Seq<char>| wanted.to_set().contains(t) implies task.tags.to_set().contains(
            t,
        ) by {
            let i = wanted.index_of(t);
            assert(task.tags.contains(wanted[i]));
        }
    }
    if wanted.to_set().subset_of(task.tags.to_set()) {
        assert forall|i: int| 0 <= i < wanted.len() implies task.tags.contains(
            #[trigger] wanted[i],
        ) by {
            assert(wanted.to_set().contains(wanted[i]));
        }
    }
}

/// Equal names give equal keys.
pub proof fn lemma_identity_deterministic(a: Seq<char>, b: Seq<char>)
    requires
        a == b,
    ensures
        identity(a) == identity(b),
{
}

/// The task that a stored record describes, if it describes one. A record
/// is `name,description,weight,tags`, the tags separated by white space.
/// The name must not be blank. The description, the weight and the tags may
/// be missing from the end; a weight that is there must be a number.
pub open spec fn record_task(s: Seq<char>) -> Option<TaskView> {
    let parts = split(s, ',');
    let name = trimmed(parts[0]);
    let weight = if parts.len() > 2 {
        parsed_u32(trimmed(parts[2]))
    } else {
        Some(DEFAULT_WEIGHT)
    };
    if name.len() == 0 || weight is None {
        None
    } else {
        Some(
            TaskView {
                name,
                description: if parts.len() > 1 {
                    trimmed(parts[1])
                } else {
                    Seq::empty()
                },
                weight: weight->0,
                tags: insert_tags(
                    Seq::empty(),
                    if parts.len() > 3 {
                        words(parts[3])
                    } else {
                        Seq::empty()
                    },
                ),
                status: Status::Unstaged,
            },
        )
    }
}

/// The record that stores a task: `name,description,weight,tags`, the tags
/// separated by one space each.
pub open spec fn record_line(t: TaskView) -> Seq<char> {
    t.name + seq![','] + t.description + seq![','] + decimal(t.weight as nat) + seq![',']
        + joined(t.tags, seq![' '])
}

impl TaskView {
    /// Whether the task can be stored in a record and read back: its name
    /// is not blank, its name and its description are trimmed and hold no
    /// comma, its tags are words without a comma, none twice, and it is not
    /// staged.
    pub open spec fn storable(self) -> bool {
        &&& self.name.len() > 0
        &&& trimmed(self.name) == self.name
        &&& free_of(self.name, ',')
        &&& trimmed(self.description) == self.description
        &&& free_of(self.description, ',')
        &&& forall|i: int|
            0 <= i < self.tags.len() ==> is_word(#[trigger] self.tags[i]) && free_of(
                self.tags[i],
                ',',
            )
        &&& self.tags.no_duplicates()
        &&& self.status == Status::Unstaged
    }
}

/// A task that can be stored is read back from its record as it was.
pub proof fn lemma_record_round_trip(task: TaskView)
    requires
        task.storable(),
    ensures
        record_task(record_line(task)) == Some(task),
{
    let number = decimal(task.weight as nat);
    let tags = joined(task.tags, seq![' ']);
    lemma_decimal_digits(task.weight as nat);
    assert(free_of(number, ',')) by {
        assert forall|i: int| 0 <= i < number.len() implies #[trigger] number[i] != ',' by {
            assert(is_digit(number[i]));
        }
    }
    assert(free_of(seq![' '], ','));
    lemma_joined_free_of(task.tags, seq![' '], ',');
    let third = number + seq![','] + tags;
    let second = task.description + seq![','] + third;
    let line = task.name + seq![','] + second;
    assert(line =~= record_line(task));
    lemma_split_first(task.name, second, ',');
    lemma_split_first(task.description, third, ',');
    lemma_split_first(number, tags, ',');
    lemma_split_whole(tags, ',');
    let parts = split(line, ',');
    assert(parts =~= seq![task.name, task.description, number, tags]);
    assert(is_digit(number.first()) && is_digit(number.last()));
    lemma_trimmed_fixed(number);
    lemma_parse_decimal(task.weight);
    lemma_words_of_joined(task.tags);
    assert(Seq::<Seq<char>>::empty() + task.tags =~= task.tags);
    lemma_insert_tags_fresh(Seq::empty(), task.tags);
}

impl View for Task {
    type V = TaskView;

    closed spec fn view(&self) -> TaskView {
        TaskView {
            name: self.name@,
            description: self.description@,
            weight: self.weight,
            tags: self.tags@,
            status: self.status,
        }
    }
}

impl Clone for Task {
    fn clone(&self) -> (r: Task)
        ensures
            r@ == self@,
    {
        Task {
            name: self.name.clone(),
            description: self.description.clone(),
            weight: self.weight,
            tags: self.tags.clone(),
            status: self.status,
        }
    }
}

impl Task {
    /// A task with the given fields and the tags of `tags`, each once, in
    /// the order of their first occurrence. It is not staged.
    pub fn new(name: &str, description: &str, weight: u32, tags: Vec<String>) -> (t: Task)
        ensures
            t@ == (TaskView {
                name: name@,
                description: description@,
                weight,
                tags: insert_tags(Seq::empty(), tags.deep_view()),
                status: Status::Unstaged,
            }),
            t@.tags.no_duplicates(),
    {
        Task {
            name: name.to_owned(),
            description: description.to_owned(),
            weight,
            tags: TagSet::from_vec(tags),
            status: Status::Unstaged,
        }
    }

    /// A task as a bare name makes it: no description, the default weight,
    /// no tags, not staged.
    pub fn from_arg(name: &str) -> (t: Task)
        ensures
            t@ == TaskView::fresh(name@),
    {
        Task {
            name: name.to_owned(),
            description: String::new(),
            weight: DEFAULT_WEIGHT,
            tags: TagSet::new(),
            status: Status::Unstaged,
        }
    }

    /// The name.
    pub fn get_name(&self) -> (r: &str)
        ensures
            r@ == self@.name,
    {
        self.name.as_str()
    }

    /// The description.
    pub fn get_description(&self) -> (r: &str)
        ensures
            r@ == self@.description,
    {
        self.description.as_str()
    }

    /// The key under which the task is stored: the digest of its name.
    pub fn get_hash(&self) -> (r: [u8; 32])
        ensures
            r@ == self@.identity(),
    {
        Task::hash_fn(self.name.as_str())
    }

    /// The key of a task named `variable`: the digest of the name.
    pub fn hash_fn(variable: &str) -> (r: [u8; 32])
        ensures
            r@ == identity(variable@),
    {
        sha256_digest(variable.as_bytes())
    }

    /// Gives the task another name. Its key changes with it.
    pub fn set_name(&mut self, name: &str) -> (ret: &mut Self)
        ensures
            (*ret)@ == old(self)@.with_name(name@),
            *final(self) == *final(ret),
    {
        self.name = name.to_owned();
        self
    }

    /// Gives the task another description.
    pub fn set_desc(&mut self, desc: &str) -> (ret: &mut Self)
        ensures
            (*ret)@ == old(self)@.with_description(desc@),
            *final(self) == *final(ret),
    {
        self.description = desc.to_owned();
        self
    }

    /// Gives the task the weight that `weight_str` writes in decimal, or the
    /// default weight where it writes none.
    pub fn set_weight(&mut self, weight_str: &str) -> (ret: &mut Self)
        ensures
            (*ret)@ == old(self)@.with_weight_text(weight_str@),
            *final(self) == *final(ret),
    {
        self.weight = match parse_u32(weight_str) {
            Some(weight) => weight,
            None => DEFAULT_WEIGHT,
        };
        self
    }

    /// Adds a tag, unless the task carries it already.
    pub fn add_tag(&mut self, tag: &str) -> (ret: &mut Self)
        ensures
            (*ret)@ == old(self)@.with_tags(insert_tag(old(self)@.tags, tag@)),
            *final(self) == *final(ret),
    {
        self.tags.insert(tag);
        self
    }

    /// Adds each of `tags` in turn.
    pub fn add_tags(&mut self, tags: &Vec<String>) -> (ret: &mut Self)
        ensures
            (*ret)@ == old(self)@.with_tags(insert_tags(old(self)@.tags, tags.deep_view())),
            *final(self) == *final(ret),
    {
        self.tags.insert_all(tags);
        self
    }

    /// Takes a tag off the task.
    pub fn remove_tag(&mut self, tag: &str) -> (ret: &mut Self)
        ensures
            (*ret)@ == old(self)@.with_tags(remove_tag(old(self)@.tags, tag@)),
            *final(self) == *final(ret),
    {
        self.tags.remove(tag);
        self
    }

    /// Takes each of `tags` off the task in turn.
    pub fn remove_tags(&mut self, tags: &Vec<String>) -> (ret: &mut Self)
        ensures
            (*ret)@ == old(self)@.with_tags(remove_tags(old(self)@.tags, tags.deep_view())),
            *final(self) == *final(ret),
    {
        self.tags.remove_all(tags);
        self
    }

    /// Takes every tag off the task.
    pub fn clear_tags(&mut self) -> (ret: &mut Self)
        ensures
            (*ret)@ == old(self)@.with_tags(Seq::empty()),
            *final(self) == *final(ret),
    {
        self.tags.clear();
        self
    }

    /// The weight.
    pub fn get_weight(&self) -> (r: u32)
        ensures
            r == self@.weight,
    {
        self.weight
    }

    /// Whether the task carries `tag`.
    pub fn has_tag(&self, tag: &str) -> (r: bool)
        ensures
            r == self@.tags.contains(tag@),
    {
        self.tags.contains(tag)
    }

    /// Whether the task carries every tag of `tags`. It carries every tag of
    /// the empty list.
    pub fn has_tags(&self, tags: &[String]) -> (r: bool)
        ensures
            r == self@.has_tags(tags.deep_view()),
    {
        self.tags.contains_all(tags)
    }

    /// The tags, in the order in which they were added, each once.
    pub fn get_tags(&self) -> (r: Vec<&str>)
        ensures
            r.deep_view() == self@.tags,
            self@.tags.no_duplicates(),
    {
        self.tags.to_vec()
    }

    /// Reads a task from a stored record.
    pub fn from_str(s: &str) -> (r: Result<Task, HeapError>)
        ensures
            match r {
                Ok(t) => record_task(s@) == Some(t@),
                Err(e) => record_task(s@) is None && e@ == ErrorView::CorruptData(s@),
            },
    {
        let parts = split_on(s, ',');
        proof {
            lemma_split_nonempty(s@, ',');
        }
        let name = trim(parts[0].as_str());
        if name.is_empty() {
            return Err(HeapError::CorruptData(s.to_owned()));
        }
        let weight = if parts.len() > 2 {
            match parse_u32(trim(parts[2].as_str())) {
                Some(weight) => weight,
                None => {
                    return Err(HeapError::CorruptData(s.to_owned()));
                },
            }
        } else {
            DEFAULT_WEIGHT
        };
        let tags = if parts.len() > 3 {
            split_words(parts[3].as_str())
        } else {
            let none: Vec<String> = Vec::new();
            assert(none.deep_view() =~= Seq::empty());
            none
        };
        let task = if parts.len() > 1 {
            Task::new(name, trim(parts[1].as_str()), weight, tags)
        } else {
            let none = String::new();
            Task::new(name, none.as_str(), weight, tags)
        };
        Ok(task)
    }

    /// The record that stores the task.
    pub fn to_record(&self) -> (r: String)
        ensures
            r@ == record_line(self@),
    {
        proof {
            reveal_strlit(",");
            reveal_strlit(" ");
            assert(","@ =~= seq![',']);
            assert(" "@ =~= seq![' ']);
        }
        let mut out = self.name.clone();
        out.append(",");
        out.append(self.description.as_str());
        out.append(",");
        out.append(u32_to_string(self.weight).as_str());
        out.append(",");
        out.append(self.tags.join(" ").as_str());
        out
    }

    /// Where the task stands in its life cycle.
    pub fn get_status(&self) -> (r: Status)
        ensures
            r == self@.status,
    {
        self.status
    }

    /// Whether the task is up for work.
    pub fn is_staged(&self) -> (r: bool)
        ensures
            r == (self@.status == Status::Staged),
    {
        self.status == Status::Staged
    }

    /// Whether the task is waiting.
    pub fn is_unstaged(&self) -> (r: bool)
        ensures
            r == (self@.status == Status::Unstaged),
    {
        self.status == Status::Unstaged
    }

    /// Whether the task is done.
    pub fn is_finished(&self) -> (r: bool)
        ensures
            r == (self@.status == Status::Finished),
    {
        self.status == Status::Finished
    }

    /// Takes a step towards `to`, as far as the life cycle allows it.
    pub fn move_to(&mut self, to: Status)
        ensures
            final(self)@ == old(self)@.moved(to),
    {
        match to {
            Status::Finished => {
                self.status = Status::Finished;
            },
            Status::Staged => {
                if self.status == Status::Unstaged {
                    self.status = Status::Staged;
                }
            },
            Status::Unstaged => {
                if self.status == Status::Staged {
                    self.status = Status::Unstaged;
                }
            },
        }
    }

    /// Puts a waiting task up for work. A task that is up for work or done
    /// stays as it is.
    pub fn stage(&mut self)
        ensures
            final(self)@ == old(self)@.moved(Status::Staged),
    {
        self.move_to(Status::Staged);
    }

    /// Takes a task that is up for work back to waiting. A task that is
    /// waiting or done stays as it is.
    pub fn unstage(&mut self)
        ensures
            final(self)@ == old(self)@.moved(Status::Unstaged),
    {
        self.move_to(Status::Unstaged);
    }

    /// Marks the task as done.
    pub fn finish(&mut self)
        ensures
            final(self)@ == old(self)@.moved(Status::Finished),
    {
        self.move_to(Status::Finished);
    }
}

} // verus!
