//! Records of an I/O trace.
use vstd::prelude::*;

use crate::error::{SUError, SUResult};

verus! {

/// The kind of a traced I/O.
#[derive(Debug, Clone, Copy, PartialEq, Eq, Structural)]
pub enum Operation {
    Read,
    Write,
}

/// One traced I/O: `size` bytes at `offset`.
#[derive(Debug, Clone, Copy, PartialEq, Eq, Structural)]
pub struct Trace {
    pub offset: usize,
    pub size: usize,
    pub op: Operation,
}

impl Operation {
    /// `W`/`w` is a write, `R`/`r` a read; anything else is an `InvalidArg` error.
    pub fn parse(s: &str) -> (r: SUResult<Operation>)
        ensures
            s@ == "W"@ || s@ == "w"@ ==> r == Ok::<Operation, SUError>(Operation::Write),
            s@ == "R"@ || s@ == "r"@ ==> r == Ok::<Operation, SUError>(Operation::Read),
            !(s@ == "W"@ || s@ == "w"@ || s@ == "R"@ || s@ == "r"@) ==> r matches Err(SUError::InvalidArg(_)),
    {
        proof {
            reveal_strlit("W");
            reveal_strlit("w");
            reveal_strlit("R");
            reveal_strlit("r");
        }
        if s.unicode_len() != 1 {
            assert(!(s@ =~= "W"@ || s@ =~= "w"@ || s@ =~= "R"@ || s@ =~= "r"@));
            return Err(SUError::invalid_arg("invalid str to parse to operation"));
        }
        let c = s.get_char(0);
        if c == 'W' || c == 'w' {
            assert(s@ =~= "W"@ || s@ =~= "w"@);
            Ok(Operation::Write)
        } else if c == 'R' || c == 'r' {
            assert(s@ =~= "R"@ || s@ =~= "r"@);
            Ok(Operation::Read)
        } else {
            assert(!(s@ =~= "W"@ || s@ =~= "w"@ || s@ =~= "R"@ || s@ =~= "r"@));
            Err(SUError::invalid_arg("invalid str to parse to operation"))
        }
    }
}

} // verus!
