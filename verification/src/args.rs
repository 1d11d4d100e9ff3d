//! Command-line arguments: `-p`/`--prompt VALUE`, `--prompt=VALUE`,
//! `-h`/`--help`, `-V`/`--version`, and an optional file name.

use vstd::prelude::*;
use vstd::string::{StrSliceExecFns, StringExecFns};
use crate::text::str_eq;

verus! {

/// What the arguments ask for.
pub enum Args {
    /// Run the editor with this prompt and file.
    Run(Option<String>, Option<String>),
    Help,
    Version,
    Error(String),
}

pub enum ArgsModel {
    Run(Option<Seq<char>>, Option<Seq<char>>),
    Help,
    Version,
    Error(Seq<char>),
}

pub open spec fn opt_view(o: Option<String>) -> Option<Seq<char>> {
    match o {
        Some(s) => Some(s@),
        None => None,
    }
}

impl View for Args {
    type V = ArgsModel;

    open spec fn view(&self) -> ArgsModel {
        match self {
            Args::Run(p, f) => ArgsModel::Run(opt_view(*p), opt_view(*f)),
            Args::Help => ArgsModel::Help,
            Args::Version => ArgsModel::Version,
            Args::Error(e) => ArgsModel::Error(e@),
        }
    }
}

pub open spec fn prompt_prefix() -> Seq<char> {
    "--prompt="@
}

/// The arguments from index `i` on, with the prompt and file name seen so
/// far. Help and version win at once; a later file name replaces an earlier
/// one.
pub open spec fn args_spec(
    args: Seq<Seq<char>>,
    i: int,
    prompt: Option<Seq<char>>,
    filename: Option<Seq<char>>,
) -> ArgsModel
    decreases args.len() - i,
{
    if i < 0 || i >= args.len() {
        ArgsModel::Run(prompt, filename)
    } else {
        let a = args[i];
        if a == "-p"@ || a == "--prompt"@ {
            if i + 1 >= args.len() {
                ArgsModel::Error(a + " requires a value"@)
            } else {
                args_spec(args, i + 2, Some(args[i + 1]), filename)
            }
        } else if a.len() >= prompt_prefix().len() && a.take(prompt_prefix().len() as int)
            == prompt_prefix() {
            args_spec(args, i + 1, Some(a.skip(prompt_prefix().len() as int)), filename)
        } else if a == "-h"@ || a == "--help"@ {
            ArgsModel::Help
        } else if a == "-V"@ || a == "--version"@ {
            ArgsModel::Version
        } else if a.len() > 0 && a[0] == '-' {
            ArgsModel::Error("unknown option: "@ + a)
        } else {
            args_spec(args, i + 1, prompt, Some(a))
        }
    }
}

/// A bare invocation, with no arguments at all, is a usage error.
pub open spec fn no_arguments_msg() -> Seq<char> {
    "no arguments: give a file name or an option"@
}

/// What the whole argument list asks for.
pub open spec fn parse_args_spec(args: Seq<Seq<char>>) -> ArgsModel {
    if args.len() == 0 {
        ArgsModel::Error(no_arguments_msg())
    } else {
        args_spec(args, 0, None, None)
    }
}

fn starts_with(s: &str, prefix: &str) -> (r: bool)
    ensures
        r == (s@.len() >= prefix@.len() && s@.take(prefix@.len() as int) == prefix@),
{
    let n = s.unicode_len();
    let m = prefix.unicode_len();
    if n < m {
        return false;
    }
    let mut i: usize = 0;
    while i < m
        invariant
            i <= m <= n,
            n == s@.len(),
            m == prefix@.len(),
            forall|j: int| 0 <= j < i ==> s@[j] == prefix@[j],
        decreases m - i,
    {
        if s.get_char(i) != prefix.get_char(i) {
            proof {
                assert(s@.take(m as int)[i as int] != prefix@[i as int]);
            }
            return false;
        }
        i += 1;
    }
    proof {
        assert(s@.take(m as int) =~= prefix@);
    }
    true
}

/// Parse the command-line arguments (without the program name). Running
/// with no arguments at all is refused, so that the program exits with a
/// usage error.
pub fn parse_args(args: &Vec<String>) -> (r: Args)
    ensures
        r@ == parse_args_spec(args@.map_values(|s: String| s@)),
{
    if args.len() == 0 {
        return Args::Error("no arguments: give a file name or an option".to_owned());
    }
    let ghost av = args@.map_values(|s: String| s@);
    let mut prompt: Option<String> = None;
    let mut filename: Option<String> = None;
    let mut i: usize = 0;
    while i < args.len()
        invariant
            av == args@.map_values(|s: String| s@),
            i <= args@.len() + 1,
            args_spec(av, 0, None, None) == args_spec(av, i as int, opt_view(prompt), opt_view(filename)),
        decreases args@.len() + 1 - i,
    {
        let arg = args[i].as_str();
        proof {
            assert(arg@ == av[i as int]);
        }
        if str_eq(arg, "-p") || str_eq(arg, "--prompt") {
            if args.len() - i <= 1 {
                let mut msg = arg.to_owned();
                msg.append(" requires a value");
                return Args::Error(msg);
            }
            proof {
                assert(args[i + 1]@ == av[i + 1]);
            }
            prompt = Some(args[i + 1].as_str().to_owned());
            i += 2;
        } else if starts_with(arg, "--prompt=") {
            let n = arg.unicode_len();
            let ghost pl = prompt_prefix().len();
            let k: usize = "--prompt=".unicode_len();
            prompt = Some(arg.substring_char(k, n).to_owned());
            i += 1;
        } else if str_eq(arg, "-h") || str_eq(arg, "--help") {
            return Args::Help;
        } else if str_eq(arg, "-V") || str_eq(arg, "--version") {
            return Args::Version;
        } else if arg.unicode_len() > 0 && arg.get_char(0) == '-' {
            let mut msg = "unknown option: ".to_owned();
            msg.append(arg);
            return Args::Error(msg);
        } else {
            filename = Some(arg.to_owned());
            i += 1;
        }
    }
    Args::Run(prompt, filename)
}

} // verus!
