//! The per-connection bridge between the transport's channel and the engine:
//! which requests a channel accepts in which state, the events they turn
//! into, and the buffer that collects output until it is flushed.

use vstd::prelude::*;
use vstd::slice::slice_to_vec;
use crate::app::Event;

verus! {

/// Why the bridge refused a request.
#[derive(Debug, Clone, Copy, PartialEq, Eq, Structural)]
pub enum SessionError {
    /// A second session channel, or a second terminal, on one connection.
    DuplicateSession,
    /// Input or a resize before a terminal was requested.
    NotReady,
}

/// What a client channel carries to the engine.
pub enum ClientEvent {
    Stdin(Vec<u8>),
    Resize((u16, u16)),
}

/// Whether the channel's engine was started.
#[derive(Debug, Clone, Copy, PartialEq, Eq, Structural)]
pub enum ChannelState {
    NotReady,
    Ready,
}

/// The answer to a terminal request in a state.
pub open spec fn pty_outcome(s: ChannelState, size: (u16, u16)) -> Result<Event, SessionError> {
    match s {
        ChannelState::Ready => Err(SessionError::DuplicateSession),
        ChannelState::NotReady => Ok(Event::Resize(size)),
    }
}

/// The answer to a resize in a state.
pub open spec fn resize_outcome(s: ChannelState, size: (u16, u16)) -> Result<Event, SessionError> {
    match s {
        ChannelState::Ready => Ok(Event::Resize(size)),
        ChannelState::NotReady => Err(SessionError::NotReady),
    }
}

/// The state after a terminal request: ready, whatever came before.
pub open spec fn after_pty(s: ChannelState) -> ChannelState {
    ChannelState::Ready
}

/// One session channel of a connection.
pub struct ClientChannel {
    state: ChannelState,
}

impl ClientChannel {
    pub closed spec fn state(&self) -> ChannelState {
        self.state
    }

    /// A channel whose engine is not started yet.
    pub fn new() -> (r: ClientChannel)
        ensures
            r.state() == ChannelState::NotReady,
    {
        ClientChannel { state: ChannelState::NotReady }
    }

    pub fn is_ready(&self) -> (r: bool)
        ensures
            r == (self.state() == ChannelState::Ready),
    {
        match self.state {
            ChannelState::Ready => true,
            ChannelState::NotReady => false,
        }
    }

    /// A terminal of `size` columns and rows is requested: the engine is to be
    /// started, and the returned resize goes to it before any other event, so
    /// that its first frame has the right size. A second request is refused
    /// and changes nothing.
    pub fn pty_request(&mut self, size: (u16, u16)) -> (r: Result<Event, SessionError>)
        ensures
            r == pty_outcome(old(self).state(), size),
            final(self).state() == after_pty(old(self).state()),
    {
        if self.is_ready() {
            return Err(SessionError::DuplicateSession);
        }
        self.state = ChannelState::Ready;
        Ok(Event::Resize(size))
    }

    /// The client's terminal changed size.
    pub fn resize(&self, size: (u16, u16)) -> (r: Result<Event, SessionError>)
        ensures
            r == resize_outcome(self.state(), size),
    {
        if !self.is_ready() {
            return Err(SessionError::NotReady);
        }
        Ok(Event::Resize(size))
    }

    /// Input bytes from the client, for the engine to decode.
    pub fn data(&self, bytes: &[u8]) -> (r: Result<Event, SessionError>)
        ensures
            self.state() == ChannelState::NotReady ==> r == Err::<Event, SessionError>(SessionError::NotReady),
            self.state() == ChannelState::Ready ==> (r matches Ok(Event::Stdin(v)) && v@ == bytes@),
    {
        if !self.is_ready() {
            return Err(SessionError::NotReady);
        }
        Ok(Event::Stdin(slice_to_vec(bytes)))
    }
}

/// A terminal requested twice on one channel: the second request is refused
/// with `DuplicateSession`, and the channel stays ready, so resizes still go
/// through.
pub proof fn lemma_second_pty_refused(s: ChannelState, first: (u16, u16), second: (u16, u16), later: (u16, u16))
    ensures
        pty_outcome(after_pty(s), second) == Err::<Event, SessionError>(SessionError::DuplicateSession),
        after_pty(after_pty(s)) == ChannelState::Ready,
        resize_outcome(after_pty(after_pty(s)), later) == Ok::<Event, SessionError>(Event::Resize(later)),
{
}

/// Before any terminal request, resizes are refused with `NotReady`.
pub proof fn lemma_resize_needs_pty(size: (u16, u16))
    ensures
        resize_outcome(ChannelState::NotReady, size) == Err::<Event, SessionError>(SessionError::NotReady),
{
}

/// A connection: at most one session channel.
pub struct Client {
    channel: Option<ClientChannel>,
}

impl Client {
    pub closed spec fn has_channel(&self) -> bool {
        self.channel.is_some()
    }

    pub closed spec fn channel_state(&self) -> ChannelState {
        match self.channel {
            Some(c) => c.state(),
            None => ChannelState::NotReady,
        }
    }

    /// A connection with no channel yet.
    pub fn new() -> (r: Client)
        ensures
            !r.has_channel(),
    {
        Client { channel: None }
    }

    /// The client opens a session channel; only one is allowed.
    pub fn channel_open_session(&mut self) -> (r: Result<(), SessionError>)
        ensures
            old(self).has_channel() ==> r == Err::<(), SessionError>(SessionError::DuplicateSession)
                && final(self).channel_state() == old(self).channel_state(),
            !old(self).has_channel() ==> r == Ok::<(), SessionError>(()) && final(self).channel_state()
                == ChannelState::NotReady,
            final(self).has_channel(),
    {
        if self.channel.is_some() {
            return Err(SessionError::DuplicateSession);
        }
        self.channel = Some(ClientChannel::new());
        Ok(())
    }

    /// A terminal request on the session channel; without a channel it is
    /// refused with `NotReady`.
    pub fn pty_request(&mut self, size: (u16, u16)) -> (r: Result<Event, SessionError>)
        ensures
            !old(self).has_channel() ==> r == Err::<Event, SessionError>(SessionError::NotReady) && !final(self).has_channel(),
            old(self).has_channel() ==> r == pty_outcome(old(self).channel_state(), size) && final(self).has_channel()
                && final(self).channel_state() == after_pty(old(self).channel_state()),
    {
        match &mut self.channel {
            Some(c) => c.pty_request(size),
            None => Err(SessionError::NotReady),
        }
    }

    /// A window change on the session channel.
    pub fn window_change_request(&self, size: (u16, u16)) -> (r: Result<Event, SessionError>)
        ensures
            r == resize_outcome(self.channel_state(), size),
    {
        match &self.channel {
            Some(c) => c.resize(size),
            None => Err(SessionError::NotReady),
        }
    }

    /// Input bytes on the session channel.
    pub fn data(&self, bytes: &[u8]) -> (r: Result<Event, SessionError>)
        ensures
            self.channel_state() == ChannelState::NotReady ==> r == Err::<Event, SessionError>(SessionError::NotReady),
            self.channel_state() == ChannelState::Ready ==> (r matches Ok(Event::Stdin(v)) && v@ == bytes@),
    {
        match &self.channel {
            Some(c) => c.data(bytes),
            None => Err(SessionError::NotReady),
        }
    }
}

/// Collects the engine's output until a flush hands it on as one chunk; the
/// chunks go to the client in the order they were flushed.
pub struct ChannelStdout {
    buffer: Vec<u8>,
}

impl ChannelStdout {
    pub closed spec fn pending(&self) -> Seq<u8> {
        self.buffer@
    }

    pub fn new() -> (r: ChannelStdout)
        ensures
            r.pending() == Seq::<u8>::empty(),
    {
        ChannelStdout { buffer: Vec::new() }
    }

    /// Appends `bytes`; all of them are taken.
    pub fn write(&mut self, bytes: &[u8]) -> (r: usize)
        ensures
            final(self).pending() == old(self).pending() + bytes@,
            r == bytes@.len(),
    {
        let mut i: usize = 0;
        while i < bytes.len()
            invariant
                i <= bytes@.len(),
                self.buffer@ == old(self).pending() + bytes@.subrange(0, i as int),
            decreases bytes.len() - i,
        {
            self.buffer.push(bytes[i]);
            i = i + 1;
            proof {
                assert(self.buffer@ =~= old(self).pending() + bytes@.subrange(0, i as int));
            }
        }
        proof {
            assert(bytes@.subrange(0, i as int) =~= bytes@);
        }
        bytes.len()
    }

    /// Hands on what was written since the last flush, and starts afresh.
    pub fn flush(&mut self) -> (r: Vec<u8>)
        ensures
            r@ == old(self).pending(),
            final(self).pending() == Seq::<u8>::empty(),
    {
        let mut chunk: Vec<u8> = Vec::new();
        core::mem::swap(&mut self.buffer, &mut chunk);
        chunk
    }
}

} // verus!
