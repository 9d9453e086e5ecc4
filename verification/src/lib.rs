//! Generate native configuration files from a single Pkl source: the
//! verified core. Path handling, the managed ignore block, format
//! compilation, ownership and journaled publication decisions, and the
//! watch loop's decisions live here; the filesystem, the evaluator and the
//! terminal are driven by the program around it.
use vstd::prelude::*;

pub mod compiler;
pub mod config;
pub mod ignore;
pub mod outcome;
pub mod path;
pub mod pkl;
pub mod publication;
pub mod render;
pub mod text;
pub mod watch;

verus! {

/// An outside operation (a read, a rename, a render) that failed, with the
/// message it gave.
pub struct Failure {
    pub message: String,
}

impl Failure {
    /// A copy of this failure.
    pub fn duplicate(&self) -> (r: Failure)
        ensures
            r == *self,
    {
        Failure { message: self.message.clone() }
    }
}

} // verus!
