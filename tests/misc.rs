use sel4_shared_ring_buffer_smoltcp::object::{ObjectBlueprintAArch64, ObjectType, ObjectTypeAArch64};
use sel4_shared_ring_buffer_smoltcp::shared::{Shared, SharedArcMutex, SharedRcRefCell};
use sel4_shared_ring_buffer_smoltcp::sync::PanickingRawMutex;

#[test]
fn blueprint_type_and_size() {
    assert_eq!(ObjectBlueprintAArch64::HugePage.ty(), ObjectType::SeL4Arch(ObjectTypeAArch64::HugePage));
    assert_eq!(ObjectBlueprintAArch64::PUD.ty(), ObjectType::SeL4Arch(ObjectTypeAArch64::PUD));
    assert_eq!(ObjectBlueprintAArch64::PGD.ty(), ObjectType::SeL4Arch(ObjectTypeAArch64::PGD));
    assert_eq!(ObjectBlueprintAArch64::HugePage.physical_size_bits(), 30);
    assert_eq!(ObjectBlueprintAArch64::PUD.physical_size_bits(), 12);
    assert_eq!(ObjectBlueprintAArch64::PGD.physical_size_bits(), 12);
}

#[test]
fn object_type_sys_values() {
    assert_eq!(ObjectTypeAArch64::HugePage.into_sys(), 5);
    assert_eq!(ObjectTypeAArch64::PUD.into_sys(), 6);
    assert_eq!(ObjectTypeAArch64::PGD.into_sys(), 7);
}

#[test]
fn panicking_raw_mutex_refuses_second_holder() {
    let m = PanickingRawMutex::new();
    assert!(m.try_lock());
    assert!(!m.try_lock());
    m.unlock();
    assert!(m.try_lock());
}

#[test]
fn default_initializers() {
    SharedRcRefCell::default_init();
    let m = <SharedArcMutex<PanickingRawMutex> as Shared>::default_init();
    assert!(m.try_lock());
}
