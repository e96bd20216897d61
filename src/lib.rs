//! A virtual network device over a shared-memory ring transport. Frames
//! cross to and from the peer through a DMA region addressed by buffer
//! index, and are copied through private bounce spans.

pub mod device;
pub mod laws;
pub mod ledger;
pub mod object;
pub mod shared;
pub mod sync;
