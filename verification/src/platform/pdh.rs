use vstd::prelude::*;

verus! {

/// A formatted PDH counter value is usable when its status is
/// `PDH_CSTATUS_VALID_DATA` (0) or `PDH_CSTATUS_NEW_DATA` (1); any other
/// status means the instance has no valid data this cycle.
pub open spec fn status_usable(c_status: u32) -> bool {
    c_status <= 1
}

/// Whether a formatted PDH counter value with this status may be read.
pub fn pdh_status_usable(c_status: u32) -> (res: bool)
    ensures
        res == status_usable(c_status),
{
    c_status <= 1
}

} // verus!
