//! An append-only ledger for a justification-based authorization
//! protocol: participants declare statements, statements become binding
//! agreements at a point in time, and actors enact actions citing one
//! agreement as basis and a set of statements as justification.  The
//! full history can be re-derived on demand as an ordered audit-event
//! stream in a stable, newline-delimited JSON wire format.

pub mod audit;
pub mod command;
pub mod ledger;

pub use command::Cmd;
pub use ledger::Ledger;
pub use ledger::LedgerError;
pub use ledger::UpdateCmd;
pub use ledger::UpdateOutcome;
