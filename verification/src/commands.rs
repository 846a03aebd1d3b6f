//! The commands that a command line is read into: primary commands, which
//! start an action, and qualifiers, which follow a primary command and
//! shape what it does.

use vstd::prelude::*;
use vstd::string::*;

verus! {

/// One command of a command line, with its argument.
#[derive(Debug)]
pub enum Commands {
    /// Add a task of this name.
    Push(String),
    /// Draw a task at random, by weight, and take it out.
    Pop,
    /// Take out the task of this name, or the tasks that a tag filter picks.
    Delete(String),
    /// Change the task of this name.
    Edit(String),
    /// Take every tag off the task of this name.
    ClearTags(String),
    /// Show the tasks.
    List,
    /// Take out every task.
    Reset,
    /// Show how the program is used.
    Help,
    /// Qualifier: a new name.
    Name(String),
    /// Qualifier: a description.
    Description(String),
    /// Qualifier: a weight, as it was written.
    Weight(String),
    /// Qualifier: tags to add, or to filter by.
    Tag(Vec<String>),
    /// Qualifier: tags to take off.
    Untag(Vec<String>),
}

/// A [`Commands`] value with its texts as character sequences.
pub enum CommandView {
    Push(Seq<char>),
    Pop,
    Delete(Seq<char>),
    Edit(Seq<char>),
    ClearTags(Seq<char>),
    List,
    Reset,
    Help,
    Name(Seq<char>),
    Description(Seq<char>),
    Weight(Seq<char>),
    Tag(Seq<Seq<char>>),
    Untag(Seq<Seq<char>>),
}

impl View for Commands {
    type V = CommandView;

    open spec fn view(&self) -> CommandView {
        match self {
            Commands::Push(name) => CommandView::Push(name@),
            Commands::Pop => CommandView::Pop,
            Commands::Delete(name) => CommandView::Delete(name@),
            Commands::Edit(name) => CommandView::Edit(name@),
            Commands::ClearTags(name) => CommandView::ClearTags(name@),
            Commands::List => CommandView::List,
            Commands::Reset => CommandView::Reset,
            Commands::Help => CommandView::Help,
            Commands::Name(name) => CommandView::Name(name@),
            Commands::Description(text) => CommandView::Description(text@),
            Commands::Weight(text) => CommandView::Weight(text@),
            Commands::Tag(tags) => CommandView::Tag(tags.deep_view()),
            Commands::Untag(tags) => CommandView::Untag(tags.deep_view()),
        }
    }
}

/// The views of a list of commands, in order.
pub open spec fn command_views(commands: Seq<Commands>) -> Seq<CommandView> {
    Seq::new(commands.len(), |i: int| commands[i]@)
}

impl CommandView {
    /// Whether the command is a qualifier: one that only has a meaning
    /// behind a primary command.
    pub open spec fn is_qualifier(self) -> bool {
        match self {
            CommandView::Name(_)
            | CommandView::Description(_)
            | CommandView::Weight(_)
            | CommandView::Tag(_)
            | CommandView::Untag(_) => true,
            _ => false,
        }
    }

    /// Whether this command, as a qualifier, may follow `primary`.
    ///
    /// A push takes a description, a weight and tags. An edit takes those, a
    /// new name and tags to take off. Pop, delete and list take tags, as a
    /// filter. Nothing else takes a qualifier.
    pub open spec fn is_valid_for(self, primary: CommandView) -> bool {
        match (primary, self) {
            (
                CommandView::Push(_),
                CommandView::Description(_) | CommandView::Weight(_) | CommandView::Tag(_),
            ) => true,
            (
                CommandView::Edit(_),
                CommandView::Name(_)
                | CommandView::Description(_)
                | CommandView::Weight(_)
                | CommandView::Tag(_)
                | CommandView::Untag(_),
            ) => true,
            (CommandView::Pop, CommandView::Tag(_)) => true,
            (CommandView::Delete(_), CommandView::Tag(_)) => true,
            (CommandView::List, CommandView::Tag(_)) => true,
            _ => false,
        }
    }
}

/// Only a qualifier may follow a command, and no qualifier takes qualifiers.
pub proof fn lemma_valid_is_qualifier(qualifier: CommandView, primary: CommandView)
    requires
        qualifier.is_valid_for(primary),
    ensures
        qualifier.is_qualifier(),
        !primary.is_qualifier(),
{
}

impl Commands {
    /// Whether the command is a qualifier.
    pub fn is_qualifier(&self) -> (r: bool)
        ensures
            r == self@.is_qualifier(),
    {
        match self {
            Commands::Name(_)
            | Commands::Description(_)
            | Commands::Weight(_)
            | Commands::Tag(_)
            | Commands::Untag(_) => true,
            _ => false,
        }
    }

    /// Whether this command, as a qualifier, may follow `command`.
    pub fn is_valid_for(&self, command: &Commands) -> (r: bool)
        ensures
            r == self@.is_valid_for(command@),
    {
        match (command, self) {
            (Commands::Push(_), Commands::Description(_) | Commands::Weight(_) | Commands::Tag(_)) => true,
            (
                Commands::Edit(_),
                Commands::Name(_)
                | Commands::Description(_)
                | Commands::Weight(_)
                | Commands::Tag(_)
                | Commands::Untag(_),
            ) => true,
            (Commands::Pop, Commands::Tag(_)) => true,
            (Commands::Delete(_), Commands::Tag(_)) => true,
            (Commands::List, Commands::Tag(_)) => true,
            _ => false,
        }
    }
}

} // verus!
