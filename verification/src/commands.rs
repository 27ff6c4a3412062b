//! The `json` and `top` subcommands.

pub mod json;
pub mod top;

use vstd::prelude::*;

verus! {

/// Both subcommands are handed the whole command line; their parser wants
/// the mountpoint at position 1, so a leading program name is dropped when
/// more than one word was given.
pub fn strip_program_name(argv: Vec<String>) -> (r: Vec<String>)
    ensures
        r@ == if argv@.len() > 1 {
            argv@.subrange(1, argv@.len() as int)
        } else {
            argv@
        },
{
    let ghost given = argv@;
    let mut argv = argv;
    if argv.len() > 1 {
        let _ = argv.remove(0);
        assert(argv@ =~= given.subrange(1, given.len() as int));
    }
    argv
}

} // verus!
