//! The command a front end hands the application's dispatcher: the
//! dispatcher interprets the message and forwards the resulting events.

use vstd::prelude::*;

use crate::handler::Input;

verus! {

/// One command from an input front end.
#[derive(Debug)]
pub enum Command {
    /// Interpret one raw message and record what it yields.
    RecordMessage(Input),
}

} // verus!
