//! The `m-n` form of a repetition suffix.
use std::ops::Range;
use vstd::prelude::*;
use vstd::string::StringSliceAdditionalSpecFns;

use crate::syntax::{parse_span, read_span};

verus! {

/// Reads `m-n` into `m..n`: two counts around the first dash, each an
/// optional `+` and a run of decimal digits that fits in a byte. Whitespace
/// around the first count is ignored. Like patterns, the text is ASCII.
pub fn from_str(s: &str) -> (r: Result<Range<u8>, ()>)
    requires
        s.is_ascii(),
    ensures
        parse_span(s.spec_bytes()) is Some <==> r is Ok,
        r matches Ok(rg) ==> parse_span(s.spec_bytes()) == Some(
            (rg.start as nat, rg.end as nat),
        ),
{
    match read_span(s.as_bytes()) {
        Some((start, end)) => Ok(Range { start, end }),
        None => Err(()),
    }
}

} // verus!
