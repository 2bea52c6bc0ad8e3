//! Decision logic of the command-line front end: flag lookup and command
//! selection. Reading `argv` and the environment, and acting on the chosen
//! command, stay outside the library.

use vstd::prelude::*;
use vstd::string::StrSliceExecFns;

verus! {

/// Compares two string slices by their character sequences.
fn str_eq(a: &str, b: &str) -> (r: bool)
    ensures
        r == (a@ == b@),
{
    let a_len = a.unicode_len();
    let b_len = b.unicode_len();
    if a_len != b_len {
        return false;
    }
    let mut i: usize = 0;
    while i < a_len
        invariant
            i <= a_len,
            a_len == a@.len(),
            a@.len() == b@.len(),
            forall|j: int| 0 <= j < i ==> a@[j] == b@[j],
        decreases a_len - i,
    {
        if a.get_char(i) != b.get_char(i) {
            return false;
        }
        i = i + 1;
    }
    proof {
        assert(a@ =~= b@);
    }
    true
}

/// Whether some argument equals either flag spelling.
pub fn array_includes_either(arr: &Vec<&str>, a: &str, b: &str) -> (r: bool)
    ensures
        r == exists|i: int|
            0 <= i < arr@.len() && ((#[trigger] arr@[i])@ == a@ || arr@[i]@ == b@),
{
    let mut i: usize = 0;
    while i < arr.len()
        invariant
            i <= arr@.len(),
            forall|j: int| 0 <= j < i ==> !((#[trigger] arr@[j])@ == a@ || arr@[j]@ == b@),
        decreases arr@.len() - i,
    {
        let item: &str = arr[i];
        if str_eq(item, a) || str_eq(item, b) {
            return true;
        }
        i = i + 1;
    }
    false
}

/// What the front end was asked to do.
#[derive(PartialEq, Eq, Structural, Clone, Copy, Debug)]
pub enum Command {
    /// Print the version.
    Version,
    /// Print the usage text.
    Help,
    /// Build the package's dependencies, then run the wrapped command.
    Build,
    /// Build the dependencies only.
    Deps,
    /// Build every package in the tree.
    All,
    /// Print the dependency graph.
    Graph,
    /// Delete the build cache.
    Clean,
    /// Anything else.
    Unknown,
}

pub open spec fn contains_arg(args: Seq<Seq<char>>, s: Seq<char>) -> bool {
    exists|i: int| 0 <= i < args.len() && args[i] == s
}

pub open spec fn arg_views(args: Seq<&str>) -> Seq<Seq<char>> {
    args.map_values(|s: &str| s@)
}

/// The command selected by the arguments before `--`, given how many
/// arguments follow `--`. Version and help flags win wherever they stand;
/// with nothing at all the usage text is shown; with only a wrapped command
/// the default build runs; otherwise the first argument names the command.
pub open spec fn spec_command(args: Seq<Seq<char>>, n_cmd_args: nat) -> Command {
    if contains_arg(args, "-v"@) || contains_arg(args, "--version"@) {
        Command::Version
    } else if contains_arg(args, "-h"@) || contains_arg(args, "--help"@) {
        Command::Help
    } else if args.len() == 0 && n_cmd_args == 0 {
        Command::Help
    } else if args.len() == 0 {
        Command::Build
    } else if args[0] == "deps"@ {
        Command::Deps
    } else if args[0] == "all"@ {
        Command::All
    } else if args[0] == "graph"@ {
        Command::Graph
    } else if args[0] == "clean"@ || args[0] == "clear"@ {
        Command::Clean
    } else {
        Command::Unknown
    }
}

/// Selects the command, mirroring `spec_command` exactly.
pub fn parse_command(dlerust_args: &Vec<&str>, n_cmd_args: usize) -> (r: Command)
    ensures
        r == spec_command(arg_views(dlerust_args@), n_cmd_args as nat),
{
    let ghost args = arg_views(dlerust_args@);
    if array_includes_either(dlerust_args, "-v", "--version") {
        proof {
            let i = choose|i: int|
                0 <= i < dlerust_args@.len() && ((#[trigger] dlerust_args@[i])@ == "-v"@
                    || dlerust_args@[i]@ == "--version"@);
            assert(args[i] == dlerust_args@[i]@);
        }
        return Command::Version;
    }
    if array_includes_either(dlerust_args, "-h", "--help") {
        proof {
            assert(forall|i: int| 0 <= i < args.len() ==> args[i] == (#[trigger] dlerust_args@[i])@);
            let i = choose|i: int|
                0 <= i < dlerust_args@.len() && ((#[trigger] dlerust_args@[i])@ == "-h"@
                    || dlerust_args@[i]@ == "--help"@);
            assert(args[i] == dlerust_args@[i]@);
        }
        return Command::Help;
    }
    proof {
        assert(forall|i: int| 0 <= i < args.len() ==> args[i] == (#[trigger] dlerust_args@[i])@);
        assert(!contains_arg(args, "-v"@) && !contains_arg(args, "--version"@));
        assert(!contains_arg(args, "-h"@) && !contains_arg(args, "--help"@));
    }
    if dlerust_args.len() == 0 {
        if n_cmd_args == 0 {
            return Command::Help;
        }
        return Command::Build;
    }
    let first: &str = dlerust_args[0];
    if str_eq(first, "deps") {
        Command::Deps
    } else if str_eq(first, "all") {
        Command::All
    } else if str_eq(first, "graph") {
        Command::Graph
    } else if str_eq(first, "clean") || str_eq(first, "clear") {
        Command::Clean
    } else {
        Command::Unknown
    }
}

/// Whether a debug-variable value switches verbose output on: it must be
/// present and spell the program's name.
pub fn is_debug_value(v: &Option<String>) -> (r: bool)
    ensures
        r == match v {
            Option::Some(s) => s@ == "dlerust"@,
            Option::None => false,
        },
{
    match v {
        Option::Some(s) => str_eq(s.as_str(), "dlerust"),
        Option::None => false,
    }
}

} // verus!
