//! The text of a Chrome trace (the JSON event format that about:tracing and
//! its successors read).
use vstd::prelude::*;
use vstd::string::StringSliceAdditionalSpecFns;
use crate::text::{bytes_of, push_bytes, push_decimal, push_decimal_u64, push_quoted, quoted, spec_decimal};

verus! {

/// The text that opens a trace.
pub fn trace_header() -> (r: Vec<u8>)
    ensures
        r@ == "[\n".spec_bytes(),
{
    bytes_of("[\n")
}

/// The text that closes a trace.
pub fn trace_footer() -> (r: Vec<u8>)
    ensures
        r@ == "]\n".spec_bytes(),
{
    bytes_of("]\n")
}

/// One complete ("X") event: `name` ran on thread `tid` from `ts` for `dur`
/// microseconds.  Events after the first are separated by a comma.
pub open spec fn complete_event_text(first: bool, name: Seq<u8>, ts: nat, tid: nat, dur: nat) -> Seq<u8> {
    (if first {
        Seq::empty()
    } else {
        ",".spec_bytes()
    }) + "{\"pid\":0, \"name\":".spec_bytes() + quoted(name) + ", \"ts\":".spec_bytes() + spec_decimal(ts)
        + ", ".spec_bytes() + "\"tid\": ".spec_bytes() + spec_decimal(tid) + ", \"ph\":\"X\", \"dur\":".spec_bytes()
        + spec_decimal(dur) + "}\n".spec_bytes()
}

/// The text of one complete event; see `complete_event_text`.
pub fn complete_event(first: bool, name: &[u8], ts: u64, tid: usize, dur: u64) -> (r: Vec<u8>)
    ensures
        r@ == complete_event_text(first, name@, ts as nat, tid as nat, dur as nat),
{
    let mut out: Vec<u8> = Vec::new();
    if !first {
        push_bytes(&mut out, ",");
    }
    push_bytes(&mut out, "{\"pid\":0, \"name\":");
    push_quoted(&mut out, name);
    push_bytes(&mut out, ", \"ts\":");
    push_decimal_u64(&mut out, ts);
    push_bytes(&mut out, ", ");
    push_bytes(&mut out, "\"tid\": ");
    push_decimal(&mut out, tid);
    push_bytes(&mut out, ", \"ph\":\"X\", \"dur\":");
    push_decimal_u64(&mut out, dur);
    push_bytes(&mut out, "}\n");
    proof {
        assert(out@ =~= complete_event_text(first, name@, ts as nat, tid as nat, dur as nat));
    }
    out
}

} // verus!
