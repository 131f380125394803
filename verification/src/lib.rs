//! Black-box correctness harness for key-value services.
//!
//! The harness drives clients that speak a line protocol, and judges
//! whether the responses that it harvests agree with some order of the
//! updates that respects the time of every call and response.
//!
//! - [`ioapi`] holds the calls and responses of the protocol and their text
//!   form; [`roundtrip`] shows that the text form loses nothing.
//! - [`history`] is the checker; [`soundness`] shows what its trimming
//!   keeps and what its checks refuse.
//! - [`random`] generates calls, and [`fuzz`] decides the steps of a fuzz
//!   run; [`oracle`] shows that a run against the reference service never
//!   fails a check.
//! - [`refcli`] is the reference service, held in memory.
//! - [`ycsb`] translates the output of a YCSB generator into calls, and
//!   [`merge`] merges what the clients of a benchmark report.
//! - [`text`], [`keymap`] and [`error`] are what the others stand on: words
//!   and lines, a map in the order of its keys, and the error type.

pub mod error;
pub mod fuzz;
pub mod history;
pub mod ioapi;
pub mod keymap;
pub mod merge;
pub mod oracle;
pub mod random;
pub mod refcli;
pub mod roundtrip;
pub mod soundness;
pub mod text;
pub mod ycsb;

pub use error::RunnerError;
pub use ioapi::{KvCall, KvResp};
