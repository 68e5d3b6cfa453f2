//! Bookkeeping and decisions of a simulated threshold-decryption session:
//! participants exchange messages through an append-only board, a manager
//! authority bootstraps the session and casts a batch of test ballots, and the
//! recovered plaintexts are compared against the ones that were cast.
//!
//! Cryptography and the participants' own protocol state live outside this
//! crate; the library holds the board, the ground truth and the active
//! subset, and decides what each operation does to them.

pub mod selection;
pub mod dispatch;
pub mod plaintexts;
pub mod session;
pub mod report;
