//! Decoding and dispatch of remote procedure calls that arrive as MessagePack
//! frames on an ordered byte stream.
//!
//! [`wire`] states the frame format over byte sequences, with the laws that
//! decoding obeys; [`msgpack`] reads and writes frames; [`session`] decides,
//! frame by frame, which backend operation to carry out; [`command`] splits
//! a configured command line into a program and its arguments.

pub mod buffer;
pub mod command;
pub mod msgpack;
pub mod session;
pub mod wire;

pub use buffer::held;
pub use command::{program_and_args, split_command};
pub use msgpack::MessagePackDecoder as Decoder;
pub use msgpack::{decode_frame, encode_rpc, Decoded, MalformedFrame, MessagePackDecoder};
pub use session::{dispatch, Command, Failure, Next, Session};

use vstd::prelude::*;

verus! {

/// A decoded remote procedure call: a method name and its string arguments.
#[derive(Debug, Clone, PartialEq, Eq)]
pub struct Rpc {
    pub method: String,
    pub params: Vec<String>,
}

/// The mathematical value of an [`Rpc`].
pub struct RpcView {
    pub method: Seq<char>,
    pub params: Seq<Seq<char>>,
}

impl View for Rpc {
    type V = RpcView;

    open spec fn view(&self) -> RpcView {
        RpcView { method: self.method@, params: self.params.deep_view() }
    }
}

} // verus!
