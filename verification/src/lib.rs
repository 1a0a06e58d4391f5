//! The durable delivery engine of a mailing-list manager: a
//! subscription roster kept as one address per line, message intake
//! that re-emits headers with optional subject tagging, and a
//! crash-resumable delivery cursor over a frozen recipient snapshot,
//! persisted as a fixed sixteen-byte big-endian record. Every
//! operation here is pure over plain values; the thin shell that
//! binds them to files, locks and the transport process lives
//! outside this crate's verified core.

pub mod addr;
pub mod config;
pub mod deliver;
pub mod err;
pub mod list;
pub mod message;
pub mod record;
pub mod roster;
pub mod text;
pub mod transport;
