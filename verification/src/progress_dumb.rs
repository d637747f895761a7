//! Build progress reporting for a "dumb" console, without any overprinting.
//!
//! Each call returns the text to print; the caller owns the console.
use vstd::prelude::*;
use vstd::string::StringSliceAdditionalSpecFns;
use crate::graph::{Build, BuildId};
use crate::progress::{build_message, has_message, spec_build_message};
use crate::task::{TaskResult, Termination};
use crate::text::{push_bytes, push_slice};
use crate::work::StateCounts;

verus! {

/// Progress for a "dumb" console, without any overprinting.
pub struct DumbConsoleProgress {
    /// Whether to print command lines of started programs.
    pub verbose: bool,
    /// The id of the last command printed, used to avoid printing it twice
    /// when we have two updates from the same command in a row.
    pub last_started: Option<BuildId>,
}

/// The line printed when a build starts.
pub open spec fn started_text(verbose: bool, b: &Build) -> Seq<u8> {
    if verbose {
        b.cmdline.unwrap()@ + seq![0x0au8]
    } else {
        spec_build_message(b) + seq![0x0au8]
    }
}

/// What is printed when a build ends: a line naming it unless it succeeded
/// silently or was the last one started, a line saying it failed or was
/// interrupted, then its output unless that is empty or success hides it.
pub open spec fn dumb_finished_text(last: Option<BuildId>, id: BuildId, b: &Build, r: &TaskResult) -> Seq<u8> {
    let head = match r.termination {
        Termination::Success => if r.output@.len() == 0 || last == Some(id) {
            Seq::empty()
        } else {
            spec_build_message(b) + seq![0x0au8]
        },
        Termination::Interrupted => "interrupted: ".spec_bytes() + spec_build_message(b) + seq![0x0au8],
        Termination::Failure => "failed: ".spec_bytes() + spec_build_message(b) + seq![0x0au8],
    };
    let hide = r.output@.len() == 0 || (r.termination == Termination::Success && b.hide_success);
    head + if hide {
        Seq::empty()
    } else {
        r.output@
    }
}

impl DumbConsoleProgress {
    pub fn new(verbose: bool) -> (r: DumbConsoleProgress)
        ensures
            r.verbose == verbose,
            r.last_started is None,
    {
        DumbConsoleProgress { verbose, last_started: None }
    }

    /// Counts are not shown on a dumb console.
    pub fn update(&self, counts: &StateCounts) {
    }

    /// A build started: returns its line, the command line when verbose.
    pub fn task_started(&mut self, id: BuildId, build: &Build) -> (r: Vec<u8>)
        requires
            build.cmdline is Some,
        ensures
            r@ == started_text(old(self).verbose, build),
            final(self).last_started == Some(id),
            final(self).verbose == old(self).verbose,
    {
        let mut out: Vec<u8> = Vec::new();
        if self.verbose {
            push_slice(&mut out, build.cmdline.as_ref().unwrap().as_slice());
        } else {
            push_slice(&mut out, build_message(build));
        }
        out.push(0x0au8);
        self.last_started = Some(id);
        out
    }

    /// Output lines of a running task are not shown on a dumb console.
    pub fn task_output(&self, id: BuildId, line: Vec<u8>) {
    }

    /// A build ended: returns what to print about it.
    pub fn task_finished(&self, id: BuildId, build: &Build, result: &TaskResult) -> (r: Vec<u8>)
        requires
            has_message(build),
        ensures
            r@ == dumb_finished_text(self.last_started, id, build, result),
    {
        let mut out: Vec<u8> = Vec::new();
        let mut hide_output = result.output.len() == 0;
        match result.termination {
            Termination::Success => {
                let just_started = match self.last_started {
                    Some(last) => last == id,
                    None => false,
                };
                if result.output.len() == 0 || just_started {
                    // Output is empty, or we just printed the command, don't print it again.
                } else {
                    push_slice(&mut out, build_message(build));
                    out.push(0x0au8);
                }
                if build.hide_success {
                    hide_output = true;
                }
            },
            Termination::Interrupted => {
                push_bytes(&mut out, "interrupted: ");
                push_slice(&mut out, build_message(build));
                out.push(0x0au8);
            },
            Termination::Failure => {
                push_bytes(&mut out, "failed: ");
                push_slice(&mut out, build_message(build));
                out.push(0x0au8);
            },
        }
        let ghost head = out@;
        if !hide_output {
            push_slice(&mut out, result.output.as_slice());
        }
        assert(out@ =~= dumb_finished_text(self.last_started, id, build, result));
        out
    }

    /// A line to print as it is.
    pub fn log(&self, msg: &[u8]) -> (r: Vec<u8>)
        ensures
            r@ == msg@ + seq![0x0au8],
    {
        let mut out: Vec<u8> = Vec::new();
        push_slice(&mut out, msg);
        out.push(0x0au8);
        out
    }
}

} // verus!
