//! The CLI subcommand names, parsed from ASCII bytes.

use vstd::prelude::*;

verus! {

/// A subcommand of the backup tool.
#[derive(Copy, Clone, Debug, PartialEq, Eq, Structural)]
pub enum Command {
    Help,
    Save,
    Load,
    Init,
}

/// The command a name denotes, if any.
pub open spec fn command_of(s: Seq<u8>) -> Option<Command> {
    if s == seq![104u8, 101u8, 108u8, 112u8] {
        Some(Command::Help)
    } else if s == seq![115u8, 97u8, 118u8, 101u8] {
        Some(Command::Save)
    } else if s == seq![108u8, 111u8, 97u8, 100u8] {
        Some(Command::Load)
    } else if s == seq![105u8, 110u8, 105u8, 116u8] {
        Some(Command::Init)
    } else {
        None
    }
}

impl Command {
    /// Parse a subcommand name given as ASCII bytes.
    pub fn from_str(src: &[u8]) -> (r: Result<Command, ()>)
        ensures
            match r {
                Ok(c) => command_of(src@) == Some(c),
                Err(_) => command_of(src@) is None,
            },
    {
        let help: Vec<u8> = vec![104u8, 101u8, 108u8, 112u8];
        let save: Vec<u8> = vec![115u8, 97u8, 118u8, 101u8];
        let load: Vec<u8> = vec![108u8, 111u8, 97u8, 100u8];
        let init: Vec<u8> = vec![105u8, 110u8, 105u8, 116u8];
        proof {
            assert(help@ =~= seq![104u8, 101u8, 108u8, 112u8]);
            assert(save@ =~= seq![115u8, 97u8, 118u8, 101u8]);
            assert(load@ =~= seq![108u8, 111u8, 97u8, 100u8]);
            assert(init@ =~= seq![105u8, 110u8, 105u8, 116u8]);
        }
        if crate::repo::bytes_eq(src, help.as_slice()) {
            Ok(Command::Help)
        } else if crate::repo::bytes_eq(src, save.as_slice()) {
            Ok(Command::Save)
        } else if crate::repo::bytes_eq(src, load.as_slice()) {
            Ok(Command::Load)
        } else if crate::repo::bytes_eq(src, init.as_slice()) {
            Ok(Command::Init)
        } else {
            Err(())
        }
    }
}

} // verus!
