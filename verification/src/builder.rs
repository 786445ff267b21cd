//! Configuration of a decoder.
use std::sync::Arc;

use vstd::prelude::*;

use crate::types::{DecoderError, ShredHandler};

verus! {

/// Collects the settings of a decoder that listens on an address of type `A`
/// and reports to a handler of type `H`.
pub struct ShredDecoderBuilder<A, H: ShredHandler + ?Sized> {
    bind: Option<A>,
    receive_threads: usize,
    recovery_workers: usize,
    recv_buffer_bytes: usize,
    handler: Option<Arc<H>>,
}

/// Complete settings of a decoder.
pub struct DecoderSettings<A, H: ShredHandler + ?Sized> {
    pub bind: A,
    pub receive_threads: usize,
    pub recovery_workers: usize,
    pub recv_buffer_bytes: usize,
    pub handler: Arc<H>,
}

/// The settings made so far.
pub struct BuilderView<A, H: ShredHandler + ?Sized> {
    pub bind: Option<A>,
    pub receive_threads: nat,
    pub recovery_workers: nat,
    pub recv_buffer_bytes: nat,
    pub handler: Option<Arc<H>>,
}

impl<A, H: ShredHandler + ?Sized> View for ShredDecoderBuilder<A, H> {
    type V = BuilderView<A, H>;

    closed spec fn view(&self) -> BuilderView<A, H> {
        BuilderView {
            bind: self.bind,
            receive_threads: self.receive_threads as nat,
            recovery_workers: self.recovery_workers as nat,
            recv_buffer_bytes: self.recv_buffer_bytes as nat,
            handler: self.handler,
        }
    }
}

impl<A, H: ShredHandler + ?Sized> BuilderView<A, H> {
    /// No address, no handler, and the default of everything else.
    pub open spec fn defaults() -> BuilderView<A, H> {
        BuilderView {
            bind: None,
            receive_threads: 4,
            recovery_workers: 8,
            recv_buffer_bytes: 256 * 1024,
            handler: None,
        }
    }
}

/// `n`, but at least one.
pub open spec fn one_or_more(n: nat) -> nat {
    if n == 0 {
        1
    } else {
        n
    }
}

impl<A, H: ShredHandler + ?Sized> ShredDecoderBuilder<A, H> {
    pub fn new() -> (builder: Self)
        ensures
            builder@ == BuilderView::<A, H>::defaults(),
    {
        ShredDecoderBuilder {
            bind: None,
            receive_threads: 4,
            recovery_workers: 8,
            recv_buffer_bytes: 256 * 1024,
            handler: None,
        }
    }

    /// Sets the address to listen on. Required.
    pub fn bind(self, addr: A) -> (builder: Self)
        ensures
            builder@ == (BuilderView { bind: Some(addr), ..self@ }),
    {
        ShredDecoderBuilder { bind: Some(addr), ..self }
    }

    /// Sets how many threads receive packets; at least one does.
    pub fn receive_threads(self, n: usize) -> (builder: Self)
        ensures
            builder@ == (BuilderView { receive_threads: one_or_more(n as nat), ..self@ }),
    {
        let receive_threads: usize = if n == 0 {
            1
        } else {
            n
        };
        ShredDecoderBuilder { receive_threads, ..self }
    }

    /// Sets how many threads recover shreds; at least one does.
    pub fn recovery_workers(self, n: usize) -> (builder: Self)
        ensures
            builder@ == (BuilderView { recovery_workers: one_or_more(n as nat), ..self@ }),
    {
        let recovery_workers: usize = if n == 0 {
            1
        } else {
            n
        };
        ShredDecoderBuilder { recovery_workers, ..self }
    }

    /// Sets the size of the receive buffer of each socket.
    pub fn recv_buffer_bytes(self, bytes: usize) -> (builder: Self)
        ensures
            builder@ == (BuilderView { recv_buffer_bytes: bytes as nat, ..self@ }),
    {
        ShredDecoderBuilder { recv_buffer_bytes: bytes, ..self }
    }

    /// Sets the handler, which others may share. Required.
    pub fn handler_arc(self, handler: Arc<H>) -> (builder: Self)
        ensures
            builder@ == (BuilderView { handler: Some(handler), ..self@ }),
    {
        ShredDecoderBuilder { handler: Some(handler), ..self }
    }

    /// Completes the settings. Without an address or a handler there are
    /// none; of the two the address is missed first.
    pub fn build(self) -> (r: Result<DecoderSettings<A, H>, DecoderError>)
        ensures
            match r {
                Ok(settings) => {
                    &&& self@.bind == Some(settings.bind)
                    &&& self@.handler == Some(settings.handler)
                    &&& settings.receive_threads == self@.receive_threads
                    &&& settings.recovery_workers == self@.recovery_workers
                    &&& settings.recv_buffer_bytes == self@.recv_buffer_bytes
                },
                Err(error) => {
                    ||| self@.bind is None && error is MissingBind
                    ||| self@.bind is Some && self@.handler is None && error is MissingHandler
                },
            },
    {
        match self.bind {
            None => Err(DecoderError::MissingBind),
            Some(bind) => match self.handler {
                None => Err(DecoderError::MissingHandler),
                Some(handler) => Ok(
                    DecoderSettings {
                        bind,
                        receive_threads: self.receive_threads,
                        recovery_workers: self.recovery_workers,
                        recv_buffer_bytes: self.recv_buffer_bytes,
                        handler,
                    },
                ),
            },
        }
    }
}

impl<A, H: ShredHandler> ShredDecoderBuilder<A, H> {
    /// Sets the handler. Required.
    pub fn handler(self, handler: H) -> (builder: Self)
        ensures
            builder@ == (BuilderView { handler: Some(Arc::new(handler)), ..self@ }),
    {
        ShredDecoderBuilder { handler: Some(Arc::new(handler)), ..self }
    }
}

impl<A, H: ShredHandler + ?Sized> Default for ShredDecoderBuilder<A, H> {
    fn default() -> (builder: Self)
        ensures
            builder@ == BuilderView::<A, H>::defaults(),
    {
        ShredDecoderBuilder::new()
    }
}

/// The half-open range of ports to bind in for an address with `port`: that
/// port alone, which the sockets of all receive threads share.
pub fn port_range(port: u16) -> (range: (u16, u16))
    requires
        port < u16::MAX,
    ensures
        range.0 == port,
        range.1 == port + 1,
{
    (port, port + 1)
}

} // verus!
