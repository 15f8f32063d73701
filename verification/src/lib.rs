//! A log-structured, persistent key/value store with a RESP-style wire
//! protocol.
//!
//! The crate holds the verified core of the system: the wire codec for
//! framed messages, the on-disk record format of the append-only command
//! log, the storage engine that maintains an in-memory index over that log
//! (with compaction), the request-dispatch step of the server, and a model
//! of the shared-queue worker pool's scheduling discipline.
//!
//! All file and socket traffic stays outside this crate; callers hand the
//! engine the log text they read and append the bytes the engine queues.

pub mod decimal;
pub mod engines;
pub mod error;
pub mod model;
pub mod record;
pub mod server;
pub mod thread_pool;

use vstd::prelude::*;
use vstd::string::StrSliceExecFns;

verus! {

/// An address for the wire protocol must be of the form `IP:PORT`;
/// a string without a colon cannot name a port.
pub fn is_invalid_address(s: &str) -> (r: bool)
    ensures
        r == !s@.contains(':'),
{
    let n = s.unicode_len();
    let mut i: usize = 0;
    while i < n
        invariant
            0 <= i <= n,
            n == s@.len(),
            forall|j: int| 0 <= j < i ==> s@[j] != ':',
        decreases n - i,
    {
        if s.get_char(i) == ':' {
            assert(s@.contains(':'));
            return false;
        }
        i += 1;
    }
    assert(!s@.contains(':'));
    true
}

} // verus!
