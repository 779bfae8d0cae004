//! Verified cores of a set of systems exercises: bounded channels over ring
//! buffers, an ext2 scanner for deleted JPEG data, a Raft-replicated bank and
//! a group-chat wire protocol with its server logic.

pub mod bank;
pub mod chat;
pub mod ext2;
pub mod mpsc_bounded;
pub mod mpsc_bounded_cached;
pub mod protocol;
pub mod recovery;
pub mod ring;
pub mod spsc_bounded_cached;
pub mod stream_agent;

use vstd::prelude::*;

verus! {

/// What a channel operation came to: finished with a result, or stopped
/// because finishing it would mean waiting for the other side of the channel.
/// In the second case the value to try again with is handed back.
pub enum Attempt<R, V> {
    Done(R),
    Retry(V),
}

} // verus!
