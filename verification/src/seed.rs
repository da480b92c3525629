//! A parser with a planted bug, and the seed that finds it: a check that a
//! fuzz harness reaches its parser needs a parser that is known to crash on a
//! known input. The defect — a length prefix trusted without checking it
//! against the buffer — is the shape a real codec bug takes.
//!
//! Here the defect is the precondition: the record's declared length must fit
//! in what follows it, and a verified caller cannot break that.

use vstd::prelude::*;

verus! {

/// What the planted defect reports when the seeded crash input reaches it.
pub const PANIC_MESSAGE: &'static str = "futhark-fuzz-seed-fixture: length prefix exceeds buffer";

/// Whether a record's declared length fits in what follows it.
pub open spec fn prefix_fits(data: Seq<u8>) -> bool {
    data.len() == 0 || data[0] <= data.len() - 1
}

/// Parse a length-prefixed record: the payload, or nothing for empty input.
pub fn parse(data: &[u8]) -> (out: &[u8])
    requires
        prefix_fits(data@),
    ensures
        out@ == (if data@.len() == 0 { Seq::empty() } else { data@.subrange(1, 1 + data@[0] as int) }),
{
    if data.len() == 0 {
        let empty: &[u8] = &[];
        assert(empty@ =~= Seq::<u8>::empty());
        return empty;
    }
    let len = data[0] as usize;
    vstd::slice::slice_subrange(data, 1, 1 + len)
}

} // verus!
