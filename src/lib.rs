//! Routing core of a stream multiplexer and demultiplexer.
//!
//! A demultiplexer sends each tagged value to the channel of its tag; a
//! multiplexer wraps the values of several inputs with their tags and sends
//! them all into one channel. Channels are tokio's unbounded mpsc channels.
//! The async loops that pull from streams and await error handlers live
//! outside this crate; each of their steps is a call of a function here.

mod channel;
mod demux;
mod interleave;
mod mux;
mod setup;
mod tagged;

pub use demux::{
    attempts_on, demux, dispatch_fits, lemma_failures_reported, lemma_fan_out, reported, Demultiplexer, Dispatch,
};
pub use interleave::{from_part, is_interleaving, lemma_interleaving_multiset, union_of};
pub use mux::{deliveries, failures_of, lemma_fan_in, mux, payloads, wrapped_inputs, MuxRoute};
pub use channel::{ChannelReceiver, ChannelSender};
pub use setup::{all_known, check_tags, covers, rejected_with, valid_tags, SetupError};
pub use tagged::{
    accepted_flags, attempted, delivered, payloads_tagged, refused, wrap_all, Attempt, SendFailure, TaggedValue,
};
