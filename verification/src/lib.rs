pub mod entry;
pub mod page;
pub mod supply;
pub mod table;
pub mod mm;
pub mod fault;
pub mod mpk;
pub mod sem;
pub mod gdt;
pub mod laws;

use vstd::prelude::*;

verus! {

/// Reports whether the four octets denote a configured IP device.
/// The all-ones address is the marker for "no device present".
pub fn has_ipdevice(ip: [u8; 4]) -> (r: bool)
    ensures
        r == !(ip[0] == 255 && ip[1] == 255 && ip[2] == 255 && ip[3] == 255),
{
    if ip[0] == 255 && ip[1] == 255 && ip[2] == 255 && ip[3] == 255 {
        false
    } else {
        true
    }
}

} // verus!
