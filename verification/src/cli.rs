//! What the command line asks for.

use crate::text::same;
use vstd::prelude::*;

verus! {

/// How the program runs.
#[derive(Debug, Clone, Copy, PartialEq, Eq, Structural)]
pub enum Mode {
    /// Print how to use the program.
    Help,
    /// Work at once, without a window.
    Headless,
    /// Open the window.
    Windowed,
}

/// Where the configuration comes from.
#[derive(Debug, Clone, Copy, PartialEq, Eq, Structural)]
pub enum ConfigSource {
    /// The saved one.
    Saved,
    /// The user is asked for their credentials.
    Prompt,
    /// None: the program cannot run.
    Missing,
}

/// Whether one of the arguments is one of two flags.
pub open spec fn has_flag(args: Seq<String>, short: Seq<char>, long: Seq<char>) -> bool {
    exists|i: int| 0 <= i < args.len() && ((#[trigger] args[i])@ == short || args[i]@ == long)
}

/// How the program runs under the given arguments.
pub open spec fn mode_of(args: Seq<String>) -> Mode {
    if has_flag(args, "-h"@, "--help"@) {
        Mode::Help
    } else if has_flag(args, "-H"@, "--headless"@) {
        Mode::Headless
    } else {
        Mode::Windowed
    }
}

/// Help is given wherever a help flag stands. Without one the program runs
/// without a window wherever a flag for that stands, and otherwise with one.
pub proof fn law_flags_choose_the_mode(args: Seq<String>, i: int)
    ensures
        0 <= i < args.len() && (args[i]@ == "-h"@ || args[i]@ == "--help"@) ==> mode_of(args)
            == Mode::Help,
        0 <= i < args.len() && (args[i]@ == "-H"@ || args[i]@ == "--headless"@) ==> mode_of(args)
            != Mode::Windowed,
        mode_of(args) == Mode::Help ==> exists|k: int|
            0 <= k < args.len() && ((#[trigger] args[k])@ == "-h"@ || args[k]@ == "--help"@),
        mode_of(args) == Mode::Headless ==> exists|k: int|
            0 <= k < args.len() && ((#[trigger] args[k])@ == "-H"@ || args[k]@ == "--headless"@),
{
}

fn any_flag(args: &Vec<String>, short: &str, long: &str) -> (r: bool)
    ensures
        r == has_flag(args@, short@, long@),
{
    let mut i: usize = 0;
    while i < args.len()
        invariant
            i <= args.len(),
            forall|k: int| 0 <= k < i ==> (#[trigger] args@[k])@ != short@ && args@[k]@ != long@,
        decreases args.len() - i,
    {
        let arg = args[i].as_str();
        if same(arg, short) || same(arg, long) {
            assert(args@[i as int]@ == short@ || args@[i as int]@ == long@);
            return true;
        }
        i = i + 1;
    }
    false
}

impl Mode {
    /// How the program runs under the given arguments.
    pub fn from_args(args: &Vec<String>) -> (r: Self)
        ensures
            r == mode_of(args@),
    {
        if any_flag(args, "-h", "--help") {
            Mode::Help
        } else if any_flag(args, "-H", "--headless") {
            Mode::Headless
        } else {
            Mode::Windowed
        }
    }

    /// Where the configuration comes from: a first run asks for it, unless it
    /// is headless, which takes a saved one.
    pub fn config_source(&self, is_saved: bool) -> (r: ConfigSource)
        ensures
            r == if is_saved {
                ConfigSource::Saved
            } else if *self == Mode::Headless {
                ConfigSource::Missing
            } else {
                ConfigSource::Prompt
            },
    {
        if is_saved {
            ConfigSource::Saved
        } else if *self == Mode::Headless {
            ConfigSource::Missing
        } else {
            ConfigSource::Prompt
        }
    }
}

} // verus!
