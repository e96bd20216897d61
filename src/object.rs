use vstd::prelude::*;

verus! {

/// Value of `seL4_ARM_HugePageObject` in `seL4_ModeObjectType` (kernel without MCS).
pub const SYS_HUGE_PAGE_OBJECT: u32 = 5;

/// Value of `seL4_ARM_PageUpperDirectoryObject` in `seL4_ModeObjectType`.
pub const SYS_PUD_OBJECT: u32 = 6;

/// Value of `seL4_ARM_PageGlobalDirectoryObject` in `seL4_ModeObjectType`.
pub const SYS_PGD_OBJECT: u32 = 7;

/// `seL4_HugePageBits`: a huge page maps 1 GiB.
pub const HUGE_PAGE_BITS: usize = 30;

/// `seL4_PUDBits`: a page upper directory takes one 4 KiB frame.
pub const PUD_BITS: usize = 12;

/// `seL4_PGDBits`: a page global directory takes one 4 KiB frame.
pub const PGD_BITS: usize = 12;

/// Corresponds to `seL4_ModeObjectType`.
#[derive(Copy, Clone, Debug, Eq, PartialEq, Structural)]
pub enum ObjectTypeAArch64 {
    HugePage,
    PUD,
    PGD,
}

/// The object types that carry a mode-specific part.
#[derive(Copy, Clone, Debug, Eq, PartialEq, Structural)]
pub enum ObjectType {
    SeL4Arch(ObjectTypeAArch64),
}

/// AArch64-specific object blueprints.
#[derive(Copy, Clone, Debug, Eq, PartialEq, Structural)]
pub enum ObjectBlueprintAArch64 {
    HugePage,
    PUD,
    PGD,
}

pub open spec fn sys_value(t: ObjectTypeAArch64) -> u32 {
    match t {
        ObjectTypeAArch64::HugePage => SYS_HUGE_PAGE_OBJECT,
        ObjectTypeAArch64::PUD => SYS_PUD_OBJECT,
        ObjectTypeAArch64::PGD => SYS_PGD_OBJECT,
    }
}

pub open spec fn blueprint_type(b: ObjectBlueprintAArch64) -> ObjectTypeAArch64 {
    match b {
        ObjectBlueprintAArch64::HugePage => ObjectTypeAArch64::HugePage,
        ObjectBlueprintAArch64::PUD => ObjectTypeAArch64::PUD,
        ObjectBlueprintAArch64::PGD => ObjectTypeAArch64::PGD,
    }
}

pub open spec fn size_bits(b: ObjectBlueprintAArch64) -> usize {
    match b {
        ObjectBlueprintAArch64::HugePage => HUGE_PAGE_BITS,
        ObjectBlueprintAArch64::PUD => PUD_BITS,
        ObjectBlueprintAArch64::PGD => PGD_BITS,
    }
}

impl ObjectTypeAArch64 {
    /// The kernel's number for this object type.
    pub fn into_sys(self) -> (r: u32)
        ensures
            r == sys_value(self),
    {
        match self {
            ObjectTypeAArch64::HugePage => SYS_HUGE_PAGE_OBJECT,
            ObjectTypeAArch64::PUD => SYS_PUD_OBJECT,
            ObjectTypeAArch64::PGD => SYS_PGD_OBJECT,
        }
    }
}

impl ObjectBlueprintAArch64 {
    /// The object type that this blueprint makes.
    pub fn ty(self) -> (r: ObjectType)
        ensures
            r == ObjectType::SeL4Arch(blueprint_type(self)),
    {
        match self {
            ObjectBlueprintAArch64::HugePage => ObjectType::SeL4Arch(ObjectTypeAArch64::HugePage),
            ObjectBlueprintAArch64::PUD => ObjectType::SeL4Arch(ObjectTypeAArch64::PUD),
            ObjectBlueprintAArch64::PGD => ObjectType::SeL4Arch(ObjectTypeAArch64::PGD),
        }
    }

    /// Base-two logarithm of the object's size in bytes.
    pub fn physical_size_bits(self) -> (r: usize)
        ensures
            r == size_bits(self),
    {
        match self {
            ObjectBlueprintAArch64::HugePage => HUGE_PAGE_BITS,
            ObjectBlueprintAArch64::PUD => PUD_BITS,
            ObjectBlueprintAArch64::PGD => PGD_BITS,
        }
    }
}

} // verus!
