//! What the screen and the command line need from the core: the mark in front
//! of an item, texts cut to a width, and the meaning of the arguments.

use vstd::prelude::*;
use vstd::string::*;

verus! {

/// The name of the file that is used when none is given.
pub const FILE_PATH: &'static str = "TODO.list";

/// The mark in front of an item: `[+]` and `[-]` stand for an item whose
/// subtasks are hidden, active or complete; `[ ]` and `[X]` for any other
/// item, active or complete.
pub open spec fn prefix_text(subs_hidden: bool, has_children: bool, active: bool) -> Seq<char> {
    if subs_hidden && has_children {
        if active {
            "[+]"@
        } else {
            "[-]"@
        }
    } else if active {
        "[ ]"@
    } else {
        "[X]"@
    }
}

/// The mark in front of an item.
pub fn prefix(subs_hidden: bool, has_children: bool, active: bool) -> (mark: &'static str)
    ensures
        mark@ == prefix_text(subs_hidden, has_children, active),
{
    match (subs_hidden, has_children, active) {
        (true, true, true) => "[+]",
        (true, true, false) => "[-]",
        (_, _, true) => "[ ]",
        (_, _, false) => "[X]",
    }
}

/// The first `max_chars` characters of `s`, or all of it if it has fewer.
pub fn truncate(s: &str, max_chars: usize) -> (cut: &str)
    ensures
        cut@ == if max_chars < s@.len() {
            s@.take(max_chars as int)
        } else {
            s@
        },
{
    let len: usize = s.unicode_len();
    if max_chars < len {
        s.substring_char(0, max_chars)
    } else {
        s
    }
}

/// What the arguments of the program ask for.
#[derive(Debug, PartialEq, Eq)]
pub enum Args {
    /// Work on this file.
    File(String),
    /// Show the help text.
    Help,
    /// `-f` or `--file` without a file name behind it.
    MissingFile(String),
    /// An argument that is not known.
    Unknown(String),
}

/// What the arguments mean, as mathematical values.
pub ghost enum ArgsView {
    File(Seq<char>),
    Help,
    MissingFile(Seq<char>),
    Unknown(Seq<char>),
}

impl View for Args {
    type V = ArgsView;

    open spec fn view(&self) -> ArgsView {
        match self {
            Args::File(f) => ArgsView::File(f@),
            Args::Help => ArgsView::Help,
            Args::MissingFile(a) => ArgsView::MissingFile(a@),
            Args::Unknown(a) => ArgsView::Unknown(a@),
        }
    }
}

/// What the arguments behind the program's name ask for. Only the first one
/// counts, and the one behind it where the first asks for a file.
pub open spec fn args_meaning(args: Seq<Seq<char>>) -> ArgsView {
    if args.len() == 0 {
        ArgsView::File(FILE_PATH@)
    } else if args[0] == "-f"@ || args[0] == "--file"@ {
        if args.len() > 1 {
            ArgsView::File(args[1])
        } else {
            ArgsView::MissingFile(args[0])
        }
    } else if args[0] == "-h"@ || args[0] == "--help"@ {
        ArgsView::Help
    } else {
        ArgsView::Unknown(args[0])
    }
}

/// The arguments as sequences of characters.
pub open spec fn arg_texts(args: Seq<String>) -> Seq<Seq<char>> {
    Seq::new(args.len(), |i: int| args[i]@)
}

/// Whether two strings hold the same characters.
fn same_text(a: &str, b: &str) -> (same: bool)
    ensures
        same == (a@ == b@),
{
    let x = String::from_str(a);
    let y = String::from_str(b);
    x == y
}

/// Reads the arguments behind the program's name.
pub fn get_args(args: &Vec<String>) -> (r: Args)
    ensures
        r@ == args_meaning(arg_texts(args@)),
{
    if args.len() == 0 {
        return Args::File(String::from_str(FILE_PATH));
    }
    let first = args[0].as_str();
    if same_text(first, "-f") || same_text(first, "--file") {
        if args.len() > 1 {
            Args::File(args[1].clone())
        } else {
            Args::MissingFile(args[0].clone())
        }
    } else if same_text(first, "-h") || same_text(first, "--help") {
        Args::Help
    } else {
        Args::Unknown(args[0].clone())
    }
}

} // verus!
