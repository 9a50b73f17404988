//! A bounded, owner-gated price ledger stored in caller-supplied byte buffers,
//! with a validator-gated write path onto a single-slot ledger.

pub mod codec;
pub mod dispatch;
pub mod error;
pub mod laws;
pub mod ledger;
pub mod program;
pub mod record;
pub mod registry;
pub mod single_slot;
