//! Selection of the file-path argument from a command line: the sole
//! argument after the program name; its absence is a usage error.

use vstd::prelude::*;

verus! {

/// Pick the file path out of the argument list (`args[0]` being the program
/// name). Returns `None`, the usage error, exactly when no path was given;
/// no counting is to be attempted then.
pub fn parse_path_arg(args: Vec<String>) -> (r: Option<String>)
    ensures
        match r {
            Some(p) => args@.len() >= 2 && p@ == args@[1]@,
            None => args@.len() < 2,
        },
{
    let mut rest = args;
    if rest.len() >= 2 {
        Some(rest.remove(1))
    } else {
        None
    }
}

} // verus!
