//! Reading a command line: each word that starts with `-` is a flag and
//! opens a command; the words behind it, up to the next flag, are its
//! argument.

use crate::commands::command_views;
use crate::commands::CommandView;
use crate::commands::Commands;
use crate::error::ErrorView;
use crate::error::HeapError;
use crate::text::join;
use crate::text::char_is_whitespace;
use crate::text::chars_of;
use crate::text::is_blank;
use crate::text::is_whitespace;
use crate::text::is_word;
use crate::text::joined;
use crate::text::lemma_trimmed_ends;
use crate::text::lemma_trimmed_idempotent;
use crate::text::split;
use crate::text::split_on;
use crate::text::str_eq;
use crate::text::trim;
use crate::text::trimmed;
use vstd::prelude::*;
use vstd::string::*;

verus! {

/// Whether a word of the command line is a flag: it starts with `-`.
pub open spec fn is_flag(word: Seq<char>) -> bool {
    word.len() > 0 && word[0] == '-'
}

/// The words from `from` up to the next flag or the end, each trimmed.
pub open spec fn run_words(args: Seq<Seq<char>>, from: int) -> Seq<Seq<char>>
    decreases args.len() - from,
{
    if 0 <= from < args.len() && !is_flag(args[from]) {
        seq![trimmed(args[from])] + run_words(args, from + 1)
    } else {
        Seq::empty()
    }
}

/// The argument that the words from `from` up to the next flag make: the
/// trimmed words with one space between each two, trimmed as a whole.
pub open spec fn argument(args: Seq<Seq<char>>, from: int) -> Seq<char> {
    trimmed(joined(run_words(args, from), seq![' ']))
}

/// Where the argument that starts at `from` ends: the place of the next
/// flag, or the end of the command line.
pub open spec fn argument_end(args: Seq<Seq<char>>, from: int) -> int {
    from + run_words(args, from).len()
}

/// Each piece of `pieces`, trimmed.
pub open spec fn trimmed_all(pieces: Seq<Seq<char>>) -> Seq<Seq<char>> {
    Seq::new(pieces.len(), |i: int| trimmed(pieces[i]))
}

/// The tags that a tag argument lists: its pieces between commas, each
/// trimmed. There is no list where a piece is not a word, that is, where it
/// is blank or holds white space.
pub open spec fn tag_list(contents: Seq<char>) -> Option<Seq<Seq<char>>> {
    let tags = trimmed_all(split(contents, ','));
    if exists|i: int| 0 <= i < tags.len() && !is_word(#[trigger] tags[i]) {
        None
    } else {
        Some(tags)
    }
}

/// The kinds of command, as the flags name them.
#[derive(Clone, Copy, Debug, PartialEq, Eq, Structural)]
pub enum Flag {
    Push,
    Description,
    Name,
    Tag,
    Untag,
    Weight,
    Pop,
    Delete,
    Reset,
    Edit,
    ClearTags,
    List,
    Help,
}

/// The kind of command that a word names, in its short or its long
/// spelling, if it names one.
pub open spec fn flag_of(word: Seq<char>) -> Option<Flag> {
    if word == "-i"@ || word == "--push"@ {
        Some(Flag::Push)
    } else if word == "-p"@ || word == "--description"@ {
        Some(Flag::Description)
    } else if word == "-n"@ || word == "--name"@ {
        Some(Flag::Name)
    } else if word == "-at"@ || word == "--tag"@ {
        Some(Flag::Tag)
    } else if word == "-ut"@ || word == "--untag"@ {
        Some(Flag::Untag)
    } else if word == "-w"@ || word == "--weight"@ {
        Some(Flag::Weight)
    } else if word == "-o"@ || word == "--pop"@ {
        Some(Flag::Pop)
    } else if word == "-d"@ || word == "--delete"@ {
        Some(Flag::Delete)
    } else if word == "-r"@ || word == "--reset"@ {
        Some(Flag::Reset)
    } else if word == "-e"@ || word == "--edit"@ {
        Some(Flag::Edit)
    } else if word == "-ct"@ || word == "--clear-tags"@ {
        Some(Flag::ClearTags)
    } else if word == "-l"@ || word == "--list"@ {
        Some(Flag::List)
    } else if word == "-h"@ || word == "--help"@ {
        Some(Flag::Help)
    } else {
        None
    }
}

/// The error of a flag that came without the argument it needs.
pub open spec fn missing(what: Seq<char>, flag: Seq<char>) -> Result<CommandView, ErrorView> {
    Err(ErrorView::MissingArgument(what, flag))
}

/// The command that a flag makes with its argument, or the error where the
/// argument does not suit the flag.
///
/// Push, description, name, weight, edit and clear-tags need an argument.
/// Pop, reset, list and help take none. Tag and untag need a list of tags
/// without a blank one. Delete takes its argument as it comes.
pub open spec fn command_of(flag: Flag, contents: Seq<char>) -> Result<CommandView, ErrorView> {
    let empty = contents.len() == 0;
    match flag {
        Flag::Push => if empty {
            missing("name"@, "push"@)
        } else {
            Ok(CommandView::Push(contents))
        },
        Flag::Description => if empty {
            missing("description"@, "description"@)
        } else {
            Ok(CommandView::Description(contents))
        },
        Flag::Name => if empty {
            missing("name"@, "name"@)
        } else {
            Ok(CommandView::Name(contents))
        },
        Flag::Tag => match tag_list(contents) {
            Some(tags) => Ok(CommandView::Tag(tags)),
            None => Err(ErrorView::TagCannotBeEmpty),
        },
        Flag::Untag => match tag_list(contents) {
            Some(tags) => Ok(CommandView::Untag(tags)),
            None => Err(ErrorView::TagCannotBeEmpty),
        },
        Flag::Weight => if empty {
            missing("weight number"@, "weight"@)
        } else {
            Ok(CommandView::Weight(contents))
        },
        Flag::Pop => if empty {
            Ok(CommandView::Pop)
        } else {
            Err(ErrorView::DoesNotTakeArg("pop"@))
        },
        Flag::Delete => Ok(CommandView::Delete(contents)),
        Flag::Reset => if empty {
            Ok(CommandView::Reset)
        } else {
            Err(ErrorView::DoesNotTakeArg("reset"@))
        },
        Flag::Edit => if empty {
            missing("name"@, "edit"@)
        } else {
            Ok(CommandView::Edit(contents))
        },
        Flag::ClearTags => if empty {
            missing("name"@, "clear-tags"@)
        } else {
            Ok(CommandView::ClearTags(contents))
        },
        Flag::List => if empty {
            Ok(CommandView::List)
        } else {
            Err(ErrorView::DoesNotTakeArg("list"@))
        },
        Flag::Help => if empty {
            Ok(CommandView::Help)
        } else {
            Err(ErrorView::DoesNotTakeArg("help"@))
        },
    }
}

/// `first` put in front of what `rest` holds; the error of `rest` where it
/// holds one.
pub open spec fn followed_by(first: Seq<CommandView>, rest: Result<Seq<CommandView>, ErrorView>)
    -> Result<Seq<CommandView>, ErrorView> {
    match rest {
        Ok(more) => Ok(first + more),
        Err(e) => Err(e),
    }
}

/// The commands that the command line holds from `from` on, or the first
/// error on the way. The word at `from` is taken as a flag, and the words
/// behind it up to the next flag as its argument; a word that names no
/// command is passed over together with its argument.
pub open spec fn tokens(args: Seq<Seq<char>>, from: int) -> Result<Seq<CommandView>, ErrorView>
    decreases args.len() - from,
    via tokens_decreases
{
    if 0 <= from < args.len() {
        let rest = argument_end(args, from + 1);
        match flag_of(args[from]) {
            None => tokens(args, rest),
            Some(flag) => match command_of(flag, argument(args, from + 1)) {
                Ok(command) => followed_by(seq![command], tokens(args, rest)),
                Err(e) => Err(e),
            },
        }
    } else {
        Ok(Seq::empty())
    }
}

/// The words from `from` on that stand where a flag is looked for and name
/// no command.
pub open spec fn unknown_flags(args: Seq<Seq<char>>, from: int) -> Seq<Seq<char>>
    decreases args.len() - from,
    via unknown_flags_decreases
{
    if 0 <= from < args.len() {
        let rest = argument_end(args, from + 1);
        if flag_of(args[from]) is None {
            seq![args[from]] + unknown_flags(args, rest)
        } else {
            unknown_flags(args, rest)
        }
    } else {
        Seq::empty()
    }
}

#[via_fn]
proof fn tokens_decreases(args: Seq<Seq<char>>, from: int) {
    lemma_argument_end(args, from + 1);
}

#[via_fn]
proof fn unknown_flags_decreases(args: Seq<Seq<char>>, from: int) {
    lemma_argument_end(args, from + 1);
}

/// An argument ends at or behind its start, and within the command line
/// where it starts there.
pub proof fn lemma_argument_end(args: Seq<Seq<char>>, from: int)
    ensures
        from <= argument_end(args, from),
        0 <= from <= args.len() ==> argument_end(args, from) <= args.len(),
    decreases args.len() - from,
{
    if 0 <= from < args.len() && !is_flag(args[from]) {
        lemma_argument_end(args, from + 1);
    }
}

/// An argument is trimmed.
pub proof fn lemma_argument_trimmed(args: Seq<Seq<char>>, from: int)
    ensures
        trimmed(argument(args, from)) == argument(args, from),
{
    lemma_trimmed_idempotent(joined(run_words(args, from), seq![' ']));
}

/// A command made from a trimmed argument names its task by a name that is
/// trimmed and not blank, and lists only tags that are words.
pub proof fn lemma_command_texts(flag: Flag, contents: Seq<char>)
    requires
        trimmed(contents) == contents,
    ensures
        match command_of(flag, contents) {
            Ok(CommandView::Push(name))
            | Ok(CommandView::Edit(name))
            | Ok(CommandView::ClearTags(name))
            | Ok(CommandView::Name(name)) => !is_blank(name) && trimmed(name) == name,
            Ok(CommandView::Tag(tags)) | Ok(CommandView::Untag(tags)) => forall|i: int|
                0 <= i < tags.len() ==> is_word(#[trigger] tags[i]),
            _ => true,
        },
{
    lemma_trimmed_ends(contents);
}

/// A command line that was read.
#[derive(Debug)]
pub struct CommandLine {
    /// The commands, in the order in which they were written.
    pub commands: Vec<Commands>,
    /// The words that were taken for flags and name no command.
    pub unknown: Vec<String>,
}

/// Whether a word of the command line is a flag.
pub fn word_is_flag(word: &str) -> (r: bool)
    ensures
        r == is_flag(word@),
{
    !word.is_empty() && word.get_char(0) == '-'
}

/// The argument that starts at `start`, and the place where it ends.
pub fn join_args(args: &Vec<String>, start: usize) -> (r: (String, usize))
    ensures
        r.0@ == argument(args.deep_view(), start as int),
        r.1 == argument_end(args.deep_view(), start as int),
        start <= r.1,
        start <= args.len() ==> r.1 <= args.len(),
{
    let mut words: Vec<String> = Vec::new();
    let mut i: usize = start;
    assert(words.deep_view() =~= Seq::empty());
    while i < args.len() && !word_is_flag(args[i].as_str())
        invariant
            start <= i,
            start <= args.len() ==> i <= args.len(),
            run_words(args.deep_view(), start as int) == words.deep_view() + run_words(
                args.deep_view(),
                i as int,
            ),
            words.len() == i - start,
        decreases args.len() - i,
    {
        let word = trim(args[i].as_str()).to_owned();
        let ghost before = words.deep_view();
        words.push(word);
        assert(words.deep_view() =~= before + seq![trimmed(args.deep_view()[i as int])]);
        i += 1;
    }
    proof {
        reveal_strlit(" ");
        assert(" "@ =~= seq![' ']);
        assert(run_words(args.deep_view(), i as int) =~= Seq::empty());
        assert(run_words(args.deep_view(), start as int) =~= words.deep_view());
    }
    let text = join(&words, " ");
    (trim(text.as_str()).to_owned(), i)
}

/// Whether `s` is a word: not empty, and without white space.
pub fn text_is_word(s: &str) -> (r: bool)
    ensures
        r == is_word(s@),
{
    let chars = chars_of(s);
    let mut i: usize = 0;
    while i < chars.len()
        invariant
            i <= chars.len(),
            chars@ == s@,
            forall|j: int| 0 <= j < i ==> !is_whitespace(#[trigger] s@[j]),
        decreases chars.len() - i,
    {
        if char_is_whitespace(chars[i]) {
            return false;
        }
        i += 1;
    }
    chars.len() > 0
}

/// The tags that a tag argument lists.
pub fn parse_tags(contents: &str) -> (r: Result<Vec<String>, HeapError>)
    ensures
        match r {
            Ok(tags) => tag_list(contents@) == Some(tags.deep_view()),
            Err(e) => tag_list(contents@) is None && e@ == ErrorView::TagCannotBeEmpty,
        },
{
    let pieces = split_on(contents, ',');
    let ghost all = trimmed_all(pieces.deep_view());
    let mut tags: Vec<String> = Vec::new();
    let mut i: usize = 0;
    while i < pieces.len()
        invariant
            i <= pieces.len(),
            pieces.deep_view() == split(contents@, ','),
            all == trimmed_all(pieces.deep_view()),
            tags.deep_view() == all.take(i as int),
            forall|j: int| 0 <= j < i ==> is_word(#[trigger] all[j]),
        decreases pieces.len() - i,
    {
        let tag = trim(pieces[i].as_str());
        if !text_is_word(tag) {
            assert(!is_word(all[i as int]));
            return Err(HeapError::TagCannotBeEmpty);
        }
        let ghost before = tags.deep_view();
        tags.push(tag.to_owned());
        assert(tags.deep_view() =~= before.push(all[i as int]));
        assert(all.take(i + 1) =~= before.push(all[i as int]));
        i += 1;
    }
    assert(all.take(pieces.len() as int) =~= all);
    Ok(tags)
}

/// The kind of command that a word names, if it names one.
pub fn read_flag(word: &str) -> (r: Option<Flag>)
    ensures
        r == flag_of(word@),
{
    if str_eq(word, "-i") || str_eq(word, "--push") {
        Some(Flag::Push)
    } else if str_eq(word, "-p") || str_eq(word, "--description") {
        Some(Flag::Description)
    } else if str_eq(word, "-n") || str_eq(word, "--name") {
        Some(Flag::Name)
    } else if str_eq(word, "-at") || str_eq(word, "--tag") {
        Some(Flag::Tag)
    } else if str_eq(word, "-ut") || str_eq(word, "--untag") {
        Some(Flag::Untag)
    } else if str_eq(word, "-w") || str_eq(word, "--weight") {
        Some(Flag::Weight)
    } else if str_eq(word, "-o") || str_eq(word, "--pop") {
        Some(Flag::Pop)
    } else if str_eq(word, "-d") || str_eq(word, "--delete") {
        Some(Flag::Delete)
    } else if str_eq(word, "-r") || str_eq(word, "--reset") {
        Some(Flag::Reset)
    } else if str_eq(word, "-e") || str_eq(word, "--edit") {
        Some(Flag::Edit)
    } else if str_eq(word, "-ct") || str_eq(word, "--clear-tags") {
        Some(Flag::ClearTags)
    } else if str_eq(word, "-l") || str_eq(word, "--list") {
        Some(Flag::List)
    } else if str_eq(word, "-h") || str_eq(word, "--help") {
        Some(Flag::Help)
    } else {
        None
    }
}

/// The error of a flag that came without the argument it needs.
fn missing_argument(what: &str, flag: &str) -> (r: Result<Commands, HeapError>)
    ensures
        r is Err,
        r->Err_0@ == ErrorView::MissingArgument(what@, flag@),
{
    Err(HeapError::MissingArgument((what.to_owned(), flag.to_owned())))
}

/// The error of a flag that takes no argument and was given one.
fn takes_no_argument(flag: &str) -> (r: Result<Commands, HeapError>)
    ensures
        r is Err,
        r->Err_0@ == ErrorView::DoesNotTakeArg(flag@),
{
    Err(HeapError::DoesNotTakeArg(flag.to_owned()))
}

/// Whether an exec result and its model say the same.
pub open spec fn same_command(r: Result<Commands, HeapError>, model: Result<CommandView, ErrorView>)
    -> bool {
    match r {
        Ok(c) => model == Ok::<CommandView, ErrorView>(c@),
        Err(e) => model == Err::<CommandView, ErrorView>(e@),
    }
}

/// The command that a flag makes with its argument.
pub fn make_command(flag: Flag, contents: String) -> (r: Result<Commands, HeapError>)
    ensures
        same_command(r, command_of(flag, contents@)),
{
    let empty = contents.as_str().is_empty();
    match flag {
        Flag::Push => if empty {
            missing_argument("name", "push")
        } else {
            Ok(Commands::Push(contents))
        },
        Flag::Description => if empty {
            missing_argument("description", "description")
        } else {
            Ok(Commands::Description(contents))
        },
        Flag::Name => if empty {
            missing_argument("name", "name")
        } else {
            Ok(Commands::Name(contents))
        },
        Flag::Tag => match parse_tags(contents.as_str()) {
            Ok(tags) => Ok(Commands::Tag(tags)),
            Err(e) => Err(e),
        },
        Flag::Untag => match parse_tags(contents.as_str()) {
            Ok(tags) => Ok(Commands::Untag(tags)),
            Err(e) => Err(e),
        },
        Flag::Weight => if empty {
            missing_argument("weight number", "weight")
        } else {
            Ok(Commands::Weight(contents))
        },
        Flag::Pop => if empty {
            Ok(Commands::Pop)
        } else {
            takes_no_argument("pop")
        },
        Flag::Delete => Ok(Commands::Delete(contents)),
        Flag::Reset => if empty {
            Ok(Commands::Reset)
        } else {
            takes_no_argument("reset")
        },
        Flag::Edit => if empty {
            missing_argument("name", "edit")
        } else {
            Ok(Commands::Edit(contents))
        },
        Flag::ClearTags => if empty {
            missing_argument("name", "clear-tags")
        } else {
            Ok(Commands::ClearTags(contents))
        },
        Flag::List => if empty {
            Ok(Commands::List)
        } else {
            takes_no_argument("list")
        },
        Flag::Help => if empty {
            Ok(Commands::Help)
        } else {
            takes_no_argument("help")
        },
    }
}

/// Reads a command line, the program's own name left out, into its
/// commands. The first argument that does not suit its flag ends the
/// reading with its error; words that name no command are set aside.
pub fn tokenize(args: &Vec<String>) -> (r: Result<CommandLine, HeapError>)
    ensures
        match r {
            Ok(line) => tokens(args.deep_view(), 0) == Ok::<Seq<CommandView>, ErrorView>(
                command_views(line.commands@),
            ) && line.unknown.deep_view() == unknown_flags(args.deep_view(), 0),
            Err(e) => tokens(args.deep_view(), 0) == Err::<Seq<CommandView>, ErrorView>(e@),
        },
{
    let mut commands: Vec<Commands> = Vec::new();
    let mut unknown: Vec<String> = Vec::new();
    let mut i: usize = 0;
    assert(command_views(commands@) =~= Seq::empty());
    assert(unknown.deep_view() =~= Seq::empty());
    while i < args.len()
        invariant
            i <= args.len(),
            tokens(args.deep_view(), 0) == followed_by(
                command_views(commands@),
                tokens(args.deep_view(), i as int),
            ),
            unknown_flags(args.deep_view(), 0) == unknown.deep_view() + unknown_flags(
                args.deep_view(),
                i as int,
            ),
        decreases args.len() - i,
    {
        let (contents, end) = join_args(args, i + 1);
        match read_flag(args[i].as_str()) {
            None => {
                let ghost before = unknown.deep_view();
                unknown.push(args[i].clone());
                assert(unknown.deep_view() =~= before + seq![args.deep_view()[i as int]]);
            },
            Some(flag) => {
                match make_command(flag, contents) {
                    Ok(command) => {
                        let ghost before = command_views(commands@);
                        commands.push(command);
                        assert(command_views(commands@) =~= before + seq![command@]);
                        proof {
                            let rest = tokens(args.deep_view(), end as int);
                            match rest {
                                Ok(more) => {
                                    assert(before + (seq![command@] + more) =~= (before
                                        + seq![command@]) + more);
                                },
                                Err(_) => {},
                            }
                        }
                    },
                    Err(e) => {
                        return Err(e);
                    },
                }
            },
        }
        i = end;
    }
    proof {
        let none = Seq::<CommandView>::empty();
        assert(command_views(commands@) + none =~= command_views(commands@));
    }
    Ok(CommandLine { commands, unknown })
}

} // verus!
