//! Access flags: the bits of the sixteen-bit field that a class, a field or
//! a method carries.

use vstd::prelude::*;

verus! {

/// One access flag. A raw field may have any number of them set.
#[derive(Debug, Clone, Copy, PartialEq, Eq, Structural)]
pub enum AccessFlag {
    Public,
    Final,
    Super,
    Interface,
    Abstract,
    Synthetic,
    Annotation,
    Enum,
}

impl AccessFlag {
    /// The bit of this flag.
    pub open spec fn spec_mask(self) -> u16 {
        match self {
            AccessFlag::Public => 0x0001,
            AccessFlag::Final => 0x0010,
            AccessFlag::Super => 0x0020,
            AccessFlag::Interface => 0x0200,
            AccessFlag::Abstract => 0x0400,
            AccessFlag::Synthetic => 0x1000,
            AccessFlag::Annotation => 0x2000,
            AccessFlag::Enum => 0x4000,
        }
    }

    /// Whether this flag is set in the raw field `flags`.
    pub open spec fn spec_is_set(self, flags: u16) -> bool {
        flags & self.spec_mask() != 0
    }

    /// The bit of this flag.
    pub fn mask(&self) -> (m: u16)
        ensures
            m == self.spec_mask(),
    {
        match self {
            AccessFlag::Public => 0x0001,
            AccessFlag::Final => 0x0010,
            AccessFlag::Super => 0x0020,
            AccessFlag::Interface => 0x0200,
            AccessFlag::Abstract => 0x0400,
            AccessFlag::Synthetic => 0x1000,
            AccessFlag::Annotation => 0x2000,
            AccessFlag::Enum => 0x4000,
        }
    }

    /// Whether this flag is set in the raw field `flags`.
    pub fn is_set(&self, flags: u16) -> (set: bool)
        ensures
            set == self.spec_is_set(flags),
    {
        flags & self.mask() != 0
    }
}

/// Flags combine by bitwise or, and none excludes another: setting the bit
/// of a flag sets that flag and leaves every other flag as it was; the empty
/// field has no flag set.
pub proof fn lemma_flags_are_independent(flag: AccessFlag, other: AccessFlag, flags: u16)
    ensures
        flag.spec_is_set(flags | flag.spec_mask()),
        flag != other ==> flag.spec_is_set(flags | other.spec_mask()) == flag.spec_is_set(flags),
        !flag.spec_is_set(0),
{
    let m = flag.spec_mask();
    let o = other.spec_mask();
    assert((flags | m) & m != 0) by (bit_vector)
        requires
            m != 0,
    ;
    assert(0u16 & m == 0) by (bit_vector);
    if flag != other {
        assert(m & o == 0) by (bit_vector)
            requires
                m == 0x0001 || m == 0x0010 || m == 0x0020 || m == 0x0200 || m == 0x0400 || m
                    == 0x1000 || m == 0x2000 || m == 0x4000,
                o == 0x0001 || o == 0x0010 || o == 0x0020 || o == 0x0200 || o == 0x0400 || o
                    == 0x1000 || o == 0x2000 || o == 0x4000,
                m != o,
        ;
        assert((flags | o) & m == flags & m) by (bit_vector)
            requires
                m & o == 0,
        ;
    }
}

} // verus!
