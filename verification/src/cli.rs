//! The command line: which command the arguments ask for.

use vstd::prelude::*;

use crate::route::texts;
use crate::text::str_eq;

verus! {

/// A command of the tool.
pub enum Command {
    /// No command given: print the help.
    Help,
    /// `init`: write a fresh configuration.
    Init,
    /// `build`: write the project file.
    Build,
    /// `serve`: build, watch and rebuild; `include_rojo` when
    /// `--include-rojo` is among the arguments.
    Serve { include_rojo: bool },
    /// `install`: copy the tool to the user's folder.
    Install,
    /// Anything else, as given.
    Unknown(String),
}

/// The plain view of a command.
pub enum CommandView {
    Help,
    Init,
    Build,
    Serve(bool),
    Install,
    Unknown(Seq<char>),
}

impl View for Command {
    type V = CommandView;

    open spec fn view(&self) -> CommandView {
        match self {
            Command::Help => CommandView::Help,
            Command::Init => CommandView::Init,
            Command::Build => CommandView::Build,
            Command::Serve { include_rojo } => CommandView::Serve(*include_rojo),
            Command::Install => CommandView::Install,
            Command::Unknown(s) => CommandView::Unknown(s@),
        }
    }
}

/// Some argument (the program's name included) is `--include-rojo`.
pub open spec fn asks_for_rojo(args: Seq<Seq<char>>) -> bool {
    exists|i: int| 0 <= i < args.len() && #[trigger] args[i] == "--include-rojo"@
}

/// The command that the arguments (the program's name first) ask for.
pub open spec fn command_for(args: Seq<Seq<char>>) -> CommandView {
    if args.len() <= 1 {
        CommandView::Help
    } else {
        let c = args[1];
        if c == "init"@ || c == "--init"@ {
            CommandView::Init
        } else if c == "build"@ || c == "--build"@ {
            CommandView::Build
        } else if c == "serve"@ || c == "--serve"@ {
            CommandView::Serve(asks_for_rojo(args))
        } else if c == "install"@ || c == "--install"@ {
            CommandView::Install
        } else {
            CommandView::Unknown(c)
        }
    }
}

/// The command words.
pub open spec fn is_command_word(c: Seq<char>) -> bool {
    c == "init"@ || c == "build"@ || c == "serve"@ || c == "install"@
}

/// Each command word names its command (`serve` with Rojo exactly when
/// `--include-rojo` is among the arguments), and the word with `--` in front
/// names the same command.
pub proof fn lemma_command_words(args: Seq<Seq<char>>)
    requires
        args.len() >= 2,
        is_command_word(args[1]),
    ensures
        command_for(args.update(1, "--"@ + args[1])) == command_for(args),
        args[1] == "init"@ ==> command_for(args) == CommandView::Init,
        args[1] == "build"@ ==> command_for(args) == CommandView::Build,
        args[1] == "serve"@ ==> command_for(args) == CommandView::Serve(asks_for_rojo(args)),
        args[1] == "install"@ ==> command_for(args) == CommandView::Install,
{
    reveal_strlit("--");
    reveal_strlit("init");
    reveal_strlit("build");
    reveal_strlit("serve");
    reveal_strlit("install");
    reveal_strlit("--init");
    reveal_strlit("--build");
    reveal_strlit("--serve");
    reveal_strlit("--install");
    reveal_strlit("--include-rojo");
    assert("init"@.len() == 4 && "build"@.len() == 5 && "serve"@.len() == 5);
    assert("install"@.len() == 7 && "--init"@.len() == 6 && "--build"@.len() == 7);
    assert("--serve"@.len() == 7 && "--install"@.len() == 9 && "--include-rojo"@.len() == 14);
    assert("build"@[0] == 'b' && "serve"@[0] == 's' && "--build"@[2] == 'b');
    assert("install"@[0] == 'i' && "--serve"@[2] == 's');
    assert("--"@ + "init"@ =~= "--init"@);
    assert("--"@ + "build"@ =~= "--build"@);
    assert("--"@ + "serve"@ =~= "--serve"@);
    assert("--"@ + "install"@ =~= "--install"@);
    let args2 = args.update(1, "--"@ + args[1]);
    assert(asks_for_rojo(args2) == asks_for_rojo(args)) by {
        if asks_for_rojo(args) {
            let i = choose|i: int| 0 <= i < args.len() && #[trigger] args[i] == "--include-rojo"@;
            assert(i != 1);
            assert(args2[i] == args[i]);
        }
        if asks_for_rojo(args2) {
            let i = choose|i: int| 0 <= i < args2.len() && #[trigger] args2[i] == "--include-rojo"@;
            assert(i != 1);
            assert(args2[i] == args[i]);
        }
    }
}

/// Is `--include-rojo` among the arguments?
fn has_rojo_flag(args: &Vec<String>) -> (r: bool)
    ensures
        r == asks_for_rojo(texts(args@)),
{
    let ghost av = texts(args@);
    let mut found = false;
    let mut i: usize = 0;
    while i < args.len()
        invariant
            av == texts(args@),
            i <= args@.len(),
            found == exists|j: int| 0 <= j < i && #[trigger] av[j] == "--include-rojo"@,
        decreases args.len() - i,
    {
        assert(av[i as int] == args@[i as int]@);
        if str_eq(args[i].as_str(), "--include-rojo") {
            found = true;
        }
        i = i + 1;
    }
    found
}

/// The command that the arguments ask for: help when there is none, else
/// the first argument after the program's name, with or without `--`.
pub fn parse_command(args: &Vec<String>) -> (c: Command)
    requires
        args@.len() >= 1,
    ensures
        c@ == command_for(texts(args@)),
{
    if args.len() == 1 {
        return Command::Help;
    }
    let ghost av = texts(args@);
    assert(av[1] == args@[1]@);
    let c = args[1].as_str();
    if str_eq(c, "init") || str_eq(c, "--init") {
        Command::Init
    } else if str_eq(c, "build") || str_eq(c, "--build") {
        Command::Build
    } else if str_eq(c, "serve") || str_eq(c, "--serve") {
        Command::Serve { include_rojo: has_rojo_flag(args) }
    } else if str_eq(c, "install") || str_eq(c, "--install") {
        Command::Install
    } else {
        Command::Unknown(args[1].clone())
    }
}

} // verus!
