//! The client-side decision core.
//!
//! The client owns the serial sink and the countdown timer, both of which
//! live outside this crate; the loop that writes command bytes, starts
//! the timer and pumps the queues therefore runs in the surrounding
//! program.  Every decision that loop takes — what a received frame means
//! for the caller, when to give up, when to re-synchronize the ingress —
//! is a function here, with its contract.

use vstd::prelude::*;

use crate::error::{error_matches, Error};
use crate::queues::ResponseFrame;
use crate::Command;
use crate::Config;
use crate::Mode;

verus! {

/// What the surrounding send loop observed since it last asked.
pub enum ClientEvent {
    /// A frame arrived on the response queue.
    Response(ResponseFrame),
    /// No frame yet, and the command timer has expired.
    TimerExpired,
    /// No frame yet, timer still running.
    NoResponse,
}

/// What the send loop must do next.
#[derive(Debug, PartialEq, Eq)]
pub enum ClientAction {
    /// Hand this result to the caller; the command is finished.
    Deliver(Result<Vec<u8>, Error>),
    /// Send [`Command::Reset`] on the control queue, then hand
    /// [`Error::Timeout`] to the caller.
    ResetAndTimeout,
    /// Report that the operation would block, and let the caller poll
    /// again later.
    YieldWouldBlock,
    /// Poll the response queue again.
    KeepPolling,
}

/// Whether `action` is the one owed to `event` under `mode`: an arrived
/// frame is delivered with its internal error mapped to the public kind;
/// an expired timer forces re-synchronization and a timeout, except in
/// blocking mode, which waits as long as necessary; silence yields in
/// non-blocking mode and polls on otherwise.
pub open spec fn poll_action_matches(mode: Mode, event: ClientEvent, action: ClientAction) -> bool {
    match event {
        ClientEvent::Response(f) => match f {
            Ok(v) => action == ClientAction::Deliver(Ok(v)),
            Err(ie) => match action {
                ClientAction::Deliver(r) => match r {
                    Err(e) => error_matches(ie, e),
                    Ok(_) => false,
                },
                _ => false,
            },
        },
        ClientEvent::TimerExpired => if mode == Mode::Blocking {
            action == ClientAction::KeepPolling
        } else {
            action == ClientAction::ResetAndTimeout
        },
        ClientEvent::NoResponse => if mode == Mode::NonBlocking {
            action == ClientAction::YieldWouldBlock
        } else {
            action == ClientAction::KeepPolling
        },
    }
}

/// The client: the configuration plus the decision procedures of the
/// send loop.
pub struct Client {
    pub config: Config,
}

impl Client {
    /// A client using the given configuration.
    pub fn new(config: Config) -> (c: Client)
        ensures
            c.config == config,
    {
        Client { config }
    }

    /// The inter-command cooldown the loop must let pass before writing
    /// a command, in milliseconds.
    pub fn cooldown_ms(&self) -> (ms: u32)
        ensures
            ms == self.config.cmd_cooldown,
    {
        self.config.cmd_cooldown
    }

    /// Decide what the send loop does next, given what it observed while
    /// polling for the response of the outstanding command.
    pub fn poll_response(&self, event: ClientEvent) -> (action: ClientAction)
        ensures
            poll_action_matches(self.config.mode, event, action),
    {
        match event {
            ClientEvent::Response(f) => match f {
                Ok(v) => ClientAction::Deliver(Ok(v)),
                Err(ie) => ClientAction::Deliver(Err(Error::from_internal(&ie))),
            },
            ClientEvent::TimerExpired => match self.config.mode {
                Mode::Blocking => ClientAction::KeepPolling,
                _ => ClientAction::ResetAndTimeout,
            },
            ClientEvent::NoResponse => match self.config.mode {
                Mode::NonBlocking => ClientAction::YieldWouldBlock,
                _ => ClientAction::KeepPolling,
            },
        }
    }

    /// Whether the loop must re-synchronize the ingress side after
    /// handing `result` to the caller: every error except "would block"
    /// is followed by a [`Command::Reset`] before the next command.
    pub fn needs_reset(&self, result: &Result<Vec<u8>, Error>) -> (r: bool)
        ensures
            r == (result is Err),
    {
        result.is_err()
    }

    /// The control message sent to re-synchronize the ingress side.
    pub fn reset_command(&self) -> (c: Command)
        ensures
            c == Command::Reset,
    {
        Command::Reset
    }
}

} // verus!
