use vstd::prelude::*;

verus! {

// Flag bits of the error code a page-fault exception pushes
// (Intel SDM Vol. 3A, figure 4-12), as this kernel reads them.

/// Set when the fault was a protection violation; clear when the page was
/// simply not present.
pub const PROTECTION_VIOLATION: u64 = 0x2;

/// Set when the fault came from a write, clear on a read.
pub const WRITE: u64 = 0x4;

/// Set when the fault happened in ring 3.
pub const USER_MODE: u64 = 0x8;

/// Set when a reserved field held a one.
pub const RESERVED_FIELD: u64 = 0x10;

/// Set when the fault came from an instruction fetch.
pub const INSTRUCTION_FETCH: u64 = 0x20;

/// The error code of a page-fault exception, decoded for diagnostics.
#[derive(Clone, Copy, PartialEq, Eq, Structural, Debug)]
pub struct PageFaultError {
    /// The raw error code.
    pub bits: u64,
}

impl PageFaultError {
    /// Whether the given flag is set in the error code.
    pub fn contains(&self, flag: u64) -> (r: bool)
        ensures
            r == (self.bits & flag != 0),
    {
        self.bits & flag != 0
    }

    /// The mode the fault happened in.
    pub fn mode(&self) -> (r: &'static str)
        ensures
            self.bits & USER_MODE != 0 ==> r@ == "user"@,
            self.bits & USER_MODE == 0 ==> r@ == "supervisor"@,
    {
        if self.bits & USER_MODE != 0 {
            "user"
        } else {
            "supervisor"
        }
    }

    /// Whether instructions or data were accessed.
    pub fn access(&self) -> (r: &'static str)
        ensures
            self.bits & INSTRUCTION_FETCH != 0 ==> r@ == "instruction"@,
            self.bits & INSTRUCTION_FETCH == 0 ==> r@ == "data"@,
    {
        if self.bits & INSTRUCTION_FETCH != 0 {
            "instruction"
        } else {
            "data"
        }
    }

    /// The kind of operation that faulted.
    pub fn operation(&self) -> (r: &'static str)
        ensures
            self.bits & WRITE != 0 ==> r@ == "write"@,
            self.bits & WRITE == 0 && self.bits & INSTRUCTION_FETCH != 0 ==> r@ == "fetch"@,
            self.bits & WRITE == 0 && self.bits & INSTRUCTION_FETCH == 0 ==> r@ == "read"@,
    {
        if self.bits & WRITE != 0 {
            "write"
        } else if self.bits & INSTRUCTION_FETCH != 0 {
            "fetch"
        } else {
            "read"
        }
    }

    /// What caused the fault.
    pub fn cause(&self) -> (r: &'static str)
        ensures
            self.bits & PROTECTION_VIOLATION != 0 ==> r@ == "protection"@,
            self.bits & PROTECTION_VIOLATION == 0 ==> r@ == "not present"@,
    {
        if self.bits & PROTECTION_VIOLATION != 0 {
            "protection"
        } else {
            "not present"
        }
    }

    /// The reserved-bit remark of the diagnostic, empty when no reserved
    /// field was set.
    pub fn reserved_remark(&self) -> (r: &'static str)
        ensures
            self.bits & RESERVED_FIELD != 0 ==> r@ == "reserved bit"@,
            self.bits & RESERVED_FIELD == 0 ==> r@ == ""@,
    {
        if self.bits & RESERVED_FIELD != 0 {
            "reserved bit"
        } else {
            ""
        }
    }
}

} // verus!
