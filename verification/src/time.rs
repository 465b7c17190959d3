//! Rendering of subtitle timestamps.
use vstd::prelude::*;
use vstd::string::*;
use crate::text::{dec_padded, decimal_padded};

verus! {

/// `HH:MM:SS,mmm` for a time given in milliseconds (hours take as many
/// digits as they need, at least two).
pub open spec fn time_text(ms: nat) -> Seq<char> {
    let secs = ms / 1000;
    dec_padded(secs / 3600, 2) + seq![':'] + dec_padded((secs % 3600) / 60, 2) + seq![':']
        + dec_padded(secs % 60, 2) + seq![','] + dec_padded(ms % 1000, 3)
}

/// Renders a time given in milliseconds as `HH:MM:SS,mmm`.
pub fn format_time(ms: u64) -> (res: String)
    ensures
        res@ == time_text(ms as nat),
{
    let secs = ms / 1000;
    let mut res = decimal_padded(secs / 3600, 2);
    res.append(":");
    res.append(decimal_padded((secs % 3600) / 60, 2).as_str());
    res.append(":");
    res.append(decimal_padded(secs % 60, 2).as_str());
    res.append(",");
    res.append(decimal_padded(ms % 1000, 3).as_str());
    proof {
        reveal_strlit(":");
        reveal_strlit(",");
    }
    res
}

} // verus!
