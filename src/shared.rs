use vstd::prelude::*;
use core::marker::PhantomData;

use crate::sync::PanickingRawMutex;

verus! {

/// A way of sharing one value between handles with exclusive access: the
/// strategy fixes what a container is built from.
pub trait Shared {
    type ContainerInit;

    /// The initializer used when none is given.
    fn default_init() -> Self::ContainerInit;
}

/// Single-threaded sharing: a reference-counted cell. Needs no initializer.
pub struct SharedRcRefCell(());

impl Shared for SharedRcRefCell {
    type ContainerInit = ();

    fn default_init() -> (r: ()) {
    }
}

/// Sharing across threads: a reference-counted mutex over the raw mutex `R`,
/// which is the initializer.
pub struct SharedArcMutex<R>(PhantomData<R>);

impl Shared for SharedArcMutex<PanickingRawMutex> {
    type ContainerInit = PanickingRawMutex;

    fn default_init() -> (r: PanickingRawMutex) {
        PanickingRawMutex::new()
    }
}

} // verus!
