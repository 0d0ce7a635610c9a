//! The window process of the client.

use crate::text::same_text;
use crate::wide::{first_zero, from_wide, narrow};
use vstd::prelude::*;

verus! {

/// Whether a process has the given executable name. The name of a process ends
/// in a zero, unless it takes up all its room.
pub fn exe_name_matches(sz_exe_file: &[u16; 260], target: &str) -> (r: bool)
    ensures
        r == (narrow(sz_exe_file@.take(first_zero(sz_exe_file@, 0))) == target@),
{
    let name = from_wide(sz_exe_file.as_slice());
    same_text(name.as_str(), target)
}

} // verus!
