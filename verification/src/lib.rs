//! A minimal persistent-append-log data service: each record, stored at a
//! caller-chosen address, holds a counter and an append-only list of
//! submitted links. Two operations are offered: one that creates a record
//! and one that appends an entry to it, both gated on a verified signer
//! identity. A length-prefixed binary codec gives each record its
//! persisted form within a fixed 9000-byte slot.

pub mod codec;
pub mod identity;
pub mod ledger;
pub mod record;
