//! The command line of the tablet's program.
use crate::text::{append, chars_of, parse_number, same_text, text_of};
use vstd::prelude::*;

verus! {

/// Where the argument `name` first stands, from `from` on; past the end if it does not.
pub open spec fn flag_at(args: Seq<Seq<char>>, name: Seq<char>, from: nat) -> nat
    decreases args.len() - from,
{
    if from >= args.len() || args[from as int] == name {
        from
    } else {
        flag_at(args, name, from + 1)
    }
}

/// The argument that follows the first `name`, if there is one.
pub open spec fn flag_value(args: Seq<Seq<char>>, name: Seq<char>) -> Option<Seq<char>> {
    let at = flag_at(args, name, 0);
    if at + 1 < args.len() {
        Some(args[at as int + 1])
    } else {
        None
    }
}

/// The number that follows the first `name`, up to `most`, or what stands for it if there is none.
pub open spec fn flag_number(
    args: Seq<Seq<char>>,
    name: Seq<char>,
    most: nat,
    missing: nat,
) -> nat {
    match flag_value(args, name) {
        Some(value) => match crate::text::number(value) {
            Some(v) if v <= most => v,
            _ => missing,
        },
        None => missing,
    }
}

/// What an optional text holds.
pub open spec fn optional_text(s: Option<String>) -> Option<Seq<char>> {
    match s {
        Some(s) => Some(s@),
        None => None,
    }
}

/// The argument that follows the first `name`, if there is one.
pub fn flag(args: &Vec<String>, name: &str) -> (r: Option<String>)
    ensures
        optional_text(r) == flag_value(crate::text::text_views(args@), name@),
{
    let ghost views = crate::text::text_views(args@);
    let mut i: usize = 0;
    while i < args.len() && !same_text(args[i].as_str(), name)
        invariant
            i <= args.len(),
            views == crate::text::text_views(args@),
            flag_at(views, name@, 0) == flag_at(views, name@, i as nat),
        decreases args.len() - i,
    {
        assert(views[i as int] == args[i as int]@);
        i = i + 1;
    }
    if i < args.len() {
        assert(views[i as int] == args[i as int]@);
    }
    if i < args.len() && i + 1 < args.len() {
        assert(views[i + 1] == args[i + 1]@);
        Some(text_of(&chars_of(args[i + 1].as_str())))
    } else {
        None
    }
}

/// The number that follows the first `name`, or what stands for it if there is none.
pub fn number_flag(args: &Vec<String>, name: &str, most: u64, missing: u64) -> (r: u64)
    ensures
        r == flag_number(crate::text::text_views(args@), name@, most as nat, missing as nat),
{
    match flag(args, name) {
        Some(value) => match parse_number(&chars_of(value.as_str())) {
            Some(v) => if v <= most {
                v
            } else {
                missing
            },
            None => missing,
        },
        None => missing,
    }
}

/// The text that follows the first `name`, or what stands for it.
pub fn text_flag(args: &Vec<String>, name: &str, missing: &str) -> (r: String)
    ensures
        r@ == match flag_value(crate::text::text_views(args@), name@) {
            Some(value) => value,
            None => missing@,
        },
{
    match flag(args, name) {
        Some(value) => value,
        None => text_of(&chars_of(missing)),
    }
}

/// Where a file is looked for when nobody says where it is: in the install prefix, then beside the
/// program.
pub open spec fn places_of(file: Seq<char>, beside: Option<Seq<char>>) -> Seq<Seq<char>> {
    let installed = "/opt/usr/share/ink2tex/"@ + file;
    match beside {
        Some(path) => seq![installed, path],
        None => seq![installed],
    }
}

/// Where a file is looked for, in order. `beside` is the path that it would have beside the program.
pub fn places(file: &str, beside: Option<String>) -> (r: Vec<String>)
    ensures
        crate::text::text_views(r@) == places_of(file@, optional_text(beside)),
{
    let mut path: Vec<char> = chars_of("/opt/usr/share/ink2tex/");
    append(&mut path, file);
    let mut r: Vec<String> = Vec::new();
    r.push(text_of(&path));
    if let Some(other) = beside {
        r.push(other);
    }
    assert(crate::text::text_views(r@) =~= places_of(file@, optional_text(beside)));
    r
}

/// What the program is asked to do.
#[derive(Debug, Clone, Copy, PartialEq, Eq, Structural)]
pub enum Command {
    Probe,
    Record,
    Ink,
    Recognize,
    Collect,
    Expr,
    Serve,
    RecordOne,
    Beautify,
    Help,
    Unknown,
}

/// What the first argument asks for. Without one, the digitizer is looked for.
pub open spec fn command_of(args: Seq<Seq<char>>) -> Command {
    if args.len() == 0 || args[0] == "--probe"@ {
        Command::Probe
    } else if args[0] == "--record"@ {
        Command::Record
    } else if args[0] == "--ink"@ {
        Command::Ink
    } else if args[0] == "--recognize"@ {
        Command::Recognize
    } else if args[0] == "--collect"@ {
        Command::Collect
    } else if args[0] == "--expr"@ {
        Command::Expr
    } else if args[0] == "--serve"@ {
        Command::Serve
    } else if args[0] == "--record-one"@ {
        Command::RecordOne
    } else if args[0] == "--beautify"@ {
        Command::Beautify
    } else if args[0] == "-h"@ || args[0] == "--help"@ {
        Command::Help
    } else {
        Command::Unknown
    }
}

/// What the first argument asks for.
pub fn command(args: &Vec<String>) -> (r: Command)
    ensures
        r == command_of(crate::text::text_views(args@)),
{
    if args.len() == 0 {
        return Command::Probe;
    }
    let a = args[0].as_str();
    assert(crate::text::text_views(args@)[0] == a@);
    if same_text(a, "--probe") {
        Command::Probe
    } else if same_text(a, "--record") {
        Command::Record
    } else if same_text(a, "--ink") {
        Command::Ink
    } else if same_text(a, "--recognize") {
        Command::Recognize
    } else if same_text(a, "--collect") {
        Command::Collect
    } else if same_text(a, "--expr") {
        Command::Expr
    } else if same_text(a, "--serve") {
        Command::Serve
    } else if same_text(a, "--record-one") {
        Command::RecordOne
    } else if same_text(a, "--beautify") {
        Command::Beautify
    } else if same_text(a, "-h") || same_text(a, "--help") {
        Command::Help
    } else {
        Command::Unknown
    }
}

} // verus!
