//! Saying out loud when a device case asserted nothing.
//!
//! A case that cannot reach what it is named for returns early, and a harness
//! reports it as passed. The line built here makes the difference visible.

use vstd::prelude::*;
use crate::text::push_text;

verus! {

/// The prefix a runner looks for. Tab-separated so a reason may contain
/// anything but a tab.
pub const MARKER: &'static str = "DRMKIT-SKIP";

/// What a case is called where nothing names it.
pub const UNNAMED: &'static str = "<unnamed>";

/// The line that records that a case bailed, and why.
pub fn skip_line(case: Option<&str>, reason: &str) -> (line: String)
    ensures
        line@ == MARKER@ + seq!['\t'] + (match case {
            Some(name) => name@,
            None => UNNAMED@,
        }) + seq!['\t'] + reason@,
{
    let mut out: String = MARKER.to_owned();
    out.push('\t');
    match case {
        Some(name) => push_text(&mut out, name),
        None => push_text(&mut out, UNNAMED),
    }
    out.push('\t');
    push_text(&mut out, reason);
    assert(out@ =~= MARKER@ + seq!['\t'] + (match case {
        Some(name) => name@,
        None => UNNAMED@,
    }) + seq!['\t'] + reason@);
    out
}

} // verus!
