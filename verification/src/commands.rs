//! Commands that are not part of the database DSL.
//!
//! These commands control what a session around the engine does; the
//! host program interprets them.
use vstd::prelude::*;

verus! {

/// Commands that are not part of the database DSL.
#[derive(Debug, Clone, PartialEq, Eq, Structural)]
pub enum MetaCommand {
    /// Close the current session.
    Exit,
    /// Print layout information.
    Layout,
}

/// The bytes of the exit meta-command, `.exit`.
pub open spec fn exit_bytes() -> Seq<u8> {
    seq![46u8, 101u8, 120u8, 105u8, 116u8]
}

/// The bytes of the layout meta-command, `.layout`.
pub open spec fn layout_bytes() -> Seq<u8> {
    seq![46u8, 108u8, 97u8, 121u8, 111u8, 117u8, 116u8]
}

impl MetaCommand {
    /// Parses one trimmed line as a meta-command.
    pub fn parse(input: &[u8]) -> (r: Result<MetaCommand, String>)
        ensures
            input@ == exit_bytes() <==> r == Ok::<MetaCommand, String>(MetaCommand::Exit),
            input@ == layout_bytes() <==> r == Ok::<MetaCommand, String>(MetaCommand::Layout),
            r is Err <==> (input@ != exit_bytes() && input@ != layout_bytes()),
    {
        let n = input.len();
        if n == 5 && input[0] == 46 && input[1] == 101 && input[2] == 120 && input[3] == 105
            && input[4] == 116 {
            proof {
                assert(input@ =~= exit_bytes());
            }
            return Ok(MetaCommand::Exit);
        }
        if n == 7 && input[0] == 46 && input[1] == 108 && input[2] == 97 && input[3] == 121
            && input[4] == 111 && input[5] == 117 && input[6] == 116 {
            proof {
                assert(input@ =~= layout_bytes());
            }
            return Ok(MetaCommand::Layout);
        }
        proof {
            if input@ == exit_bytes() {
                assert(input@[0] == 46 && input@[1] == 101 && input@[2] == 120 && input@[3] == 105
                    && input@[4] == 116);
            }
            if input@ == layout_bytes() {
                assert(input@[0] == 46 && input@[1] == 108 && input@[2] == 97 && input@[3] == 121
                    && input@[4] == 111 && input@[5] == 117 && input@[6] == 116);
            }
        }
        Err("unknown command".to_string())
    }
}

} // verus!
