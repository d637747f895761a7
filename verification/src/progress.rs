//! Build progress tracking and reporting, for the purpose of display to the
//! user.
use vstd::prelude::*;
use crate::graph::Build;

verus! {

/// The message shown for a build: its description, unless that is absent
/// or empty, else its command line.
pub open spec fn spec_build_message(b: &Build) -> Seq<u8> {
    match b.desc {
        Some(d) => if d@.len() > 0 {
            d@
        } else {
            b.cmdline.unwrap()@
        },
        None => b.cmdline.unwrap()@,
    }
}

/// A build has something to show: a description or a command line.
pub open spec fn has_message(b: &Build) -> bool {
    b.cmdline is Some || (b.desc matches Some(d) && d@.len() > 0)
}

/// Compute the message to display on the console for a given build.
pub fn build_message(build: &Build) -> (r: &[u8])
    requires
        has_message(build),
    ensures
        r@ == spec_build_message(build),
{
    match &build.desc {
        Some(d) => {
            if d.len() > 0 {
                return d.as_slice();
            }
        },
        None => {},
    }
    build.cmdline.as_ref().unwrap().as_slice()
}

} // verus!
