//! The errors of the task tracker, and the message each one is reported with.

use vstd::prelude::*;
use vstd::string::*;

verus! {

/// `std::io::Error`: the cause of a failure to read or write.
#[verifier::external_type_specification]
#[verifier::external_body]
pub struct ExIoError(std::io::Error);

/// What can go wrong while reading the command line, the stored records or
/// while carrying out a command.
#[derive(Debug)]
pub enum HeapError {
    /// A stored record cannot be read; holds the record.
    CorruptData(String),
    /// Reading or writing the store failed.
    FileError(std::io::Error),
    /// There is no store yet.
    FileDoesNotExist,
    /// A flag came without its argument; holds what is missing and the flag.
    MissingArgument((String, String)),
    /// A flag that takes no argument was given one; holds the flag.
    DoesNotTakeArg(String),
    /// A tag list holds a tag that is empty or holds white space.
    TagCannotBeEmpty,
    /// No task carries every tag of the filter; holds the filter.
    NoTaggedElements(String),
    /// No task has this name.
    TaskNotFound(String),
    /// A task of this name is in the collection already.
    TaskAlreadyExists(String),
    /// The collection is empty.
    NoTasksOnHeap,
    /// A position lies outside the collection; holds the operation.
    IndexError(String),
    /// The weights of the candidates add up to zero, so none can be drawn.
    DegenerateWeights,
}

/// A [`HeapError`] with its texts as character sequences. The cause of a
/// `FileError` is not part of the view.
pub enum ErrorView {
    CorruptData(Seq<char>),
    FileError,
    FileDoesNotExist,
    MissingArgument(Seq<char>, Seq<char>),
    DoesNotTakeArg(Seq<char>),
    TagCannotBeEmpty,
    NoTaggedElements(Seq<char>),
    TaskNotFound(Seq<char>),
    TaskAlreadyExists(Seq<char>),
    NoTasksOnHeap,
    IndexError(Seq<char>),
    DegenerateWeights,
}

impl View for HeapError {
    type V = ErrorView;

    open spec fn view(&self) -> ErrorView {
        match self {
            HeapError::CorruptData(row) => ErrorView::CorruptData(row@),
            HeapError::FileError(_) => ErrorView::FileError,
            HeapError::FileDoesNotExist => ErrorView::FileDoesNotExist,
            HeapError::MissingArgument(pair) => ErrorView::MissingArgument(pair.0@, pair.1@),
            HeapError::DoesNotTakeArg(flag) => ErrorView::DoesNotTakeArg(flag@),
            HeapError::TagCannotBeEmpty => ErrorView::TagCannotBeEmpty,
            HeapError::NoTaggedElements(tags) => ErrorView::NoTaggedElements(tags@),
            HeapError::TaskNotFound(name) => ErrorView::TaskNotFound(name@),
            HeapError::TaskAlreadyExists(name) => ErrorView::TaskAlreadyExists(name@),
            HeapError::NoTasksOnHeap => ErrorView::NoTasksOnHeap,
            HeapError::IndexError(op) => ErrorView::IndexError(op@),
            HeapError::DegenerateWeights => ErrorView::DegenerateWeights,
        }
    }
}

/// How the message of a `FileError` begins; the cause follows.
pub open spec fn file_error_prefix() -> Seq<char> {
    "File Input Error: "@
}

/// The message of an error. For a `FileError` this is the start of the
/// message only.
pub open spec fn message_text(e: ErrorView) -> Seq<char> {
    match e {
        ErrorView::CorruptData(row) => "Data row is corrupt: "@ + row,
        ErrorView::FileError => file_error_prefix(),
        ErrorView::FileDoesNotExist => "File does not exist"@,
        ErrorView::MissingArgument(what, flag) => "A "@ + what + " is required for --"@ + flag
            + "."@,
        ErrorView::DoesNotTakeArg(flag) => "--"@ + flag + " does not take arguments."@,
        ErrorView::TagCannotBeEmpty => "Tag cannot be empty or contain whitespace.\n"@,
        ErrorView::NoTaggedElements(tags) => "No elements found where tags "@ + tags
            + " intersect.\n"@,
        ErrorView::TaskNotFound(name) => "Task \""@ + name + "\" was not found.\n"@,
        ErrorView::TaskAlreadyExists(name) => "Task \""@ + name + "\" already exists.\n"@,
        ErrorView::NoTasksOnHeap => "No tasks found in the heap.\n"@,
        ErrorView::IndexError(op) => "Index out of range in "@ + op + ".\n"@,
        ErrorView::DegenerateWeights => "The weights of the tasks to choose from add up to zero.\n"@,
    }
}

/// What `std::io::Error` displays as. Nothing is claimed of the text.
#[verifier::external_body]
fn io_error_text(e: &std::io::Error) -> (r: String) {
    e.to_string()
}

/// `first` and `rest` in one string.
fn prefixed(first: &str, rest: &str) -> (r: String)
    ensures
        r@ == first@ + rest@,
{
    let mut out = String::from_str(first);
    out.append(rest);
    out
}

/// `first`, `middle` and `last` in one string.
fn framed(first: &str, middle: &str, last: &str) -> (r: String)
    ensures
        r@ == first@ + middle@ + last@,
{
    let mut out = String::from_str(first);
    out.append(middle);
    out.append(last);
    out
}

impl HeapError {
    /// The message that this error is reported with. For a `FileError` the
    /// message starts with [`file_error_prefix`] and goes on with the cause;
    /// for every other error it is [`message_text`].
    pub fn message(&self) -> (r: String)
        ensures
            self@ is FileError ==> r@.len() >= file_error_prefix().len() && r@.take(
                file_error_prefix().len() as int,
            ) == file_error_prefix(),
            !(self@ is FileError) ==> r@ == message_text(self@),
    {
        match self {
            HeapError::CorruptData(row) => prefixed("Data row is corrupt: ", row.as_str()),
            HeapError::FileError(cause) => {
                let text = io_error_text(cause);
                let out = prefixed("File Input Error: ", text.as_str());
                assert(out@.take(file_error_prefix().len() as int) =~= file_error_prefix());
                out
            },
            HeapError::FileDoesNotExist => String::from_str("File does not exist"),
            HeapError::MissingArgument(pair) => {
                let mut out = framed("A ", pair.0.as_str(), " is required for --");
                out.append(pair.1.as_str());
                out.append(".");
                out
            },
            HeapError::DoesNotTakeArg(flag) => framed("--", flag.as_str(), " does not take arguments."),
            HeapError::TagCannotBeEmpty => String::from_str(
                "Tag cannot be empty or contain whitespace.\n",
            ),
            HeapError::NoTaggedElements(tags) => framed(
                "No elements found where tags ",
                tags.as_str(),
                " intersect.\n",
            ),
            HeapError::TaskNotFound(name) => framed("Task \"", name.as_str(), "\" was not found.\n"),
            HeapError::TaskAlreadyExists(name) => framed(
                "Task \"",
                name.as_str(),
                "\" already exists.\n",
            ),
            HeapError::NoTasksOnHeap => String::from_str("No tasks found in the heap.\n"),
            HeapError::IndexError(op) => framed("Index out of range in ", op.as_str(), ".\n"),
            HeapError::DegenerateWeights => String::from_str(
                "The weights of the tasks to choose from add up to zero.\n",
            ),
        }
    }
}

impl From<std::io::Error> for HeapError {
    fn from(err: std::io::Error) -> (r: HeapError) {
        HeapError::FileError(err)
    }
}

impl vstd::std_specs::convert::FromSpecImpl<std::io::Error> for HeapError {
    open spec fn obeys_from_spec() -> bool {
        true
    }

    open spec fn from_spec(err: std::io::Error) -> HeapError {
        HeapError::FileError(err)
    }
}

} // verus!
