//! The change monitor's decision kernel: given the last observed checksum
//! and one poll of the clipboard, decide whether this is a local change
//! event and what to remember for the next tick.
use vstd::prelude::*;

verus! {

/// One observation of the clipboard.
pub enum PollOutcome {
    /// The clipboard holds content with this checksum.
    Content { checksum: String },
    /// The clipboard is empty.
    Empty,
    /// The clipboard could not be read.
    ReadError,
}

/// One tick of the monitor: returns the checksum to remember and whether a
/// change event fires.
///
/// A new checksum fires a change.  An empty clipboard resets the memory so
/// the next non-empty read always fires.  A read error keeps the previous
/// memory and fires nothing.
pub fn monitor_step(last: Option<String>, poll: PollOutcome) -> (r: (Option<String>, bool))
    ensures
        poll matches PollOutcome::Content { checksum } ==> {
            &&& r.1 == !(last matches Some(l) && l@ == checksum@)
            &&& r.0 matches Some(n) && n@ == checksum@
        },
        poll is Empty ==> r.0 is None && r.1 == false,
        poll is ReadError ==> match (r.0, last) {
            (Some(a), Some(b)) => a@ == b@,
            (None, None) => true,
            _ => false,
        } && r.1 == false,
{
    match poll {
        PollOutcome::Content { checksum } => {
            let changed = match &last {
                Some(l) => !crate::codec::str_eq(l.as_str(), checksum.as_str()),
                None => true,
            };
            (Some(checksum), changed)
        },
        PollOutcome::Empty => (None, false),
        PollOutcome::ReadError => (last, false),
    }
}

} // verus!
