//! Core engine for AT-command communication with a serial modem.
//!
//! The crate turns a raw byte stream coming from a modem into classified
//! events — solicited responses, unsolicited result codes (URCs) and
//! command prompts — and serves a client that issues commands and awaits
//! their responses.  The three single-producer/single-consumer queues that
//! connect the ingress side with the client side are bounded `heapless`
//! queues; the receive buffer is a fixed-capacity `heapless` vector.

pub mod buffer;
pub mod client;
pub mod de;
pub mod digest;
pub mod error;
pub mod ingress;
pub mod laws;
pub mod queues;
pub mod ser;
pub mod utils;

use vstd::prelude::*;

verus! {

/// Whether the AT client should block while waiting for responses or
/// return early.
#[derive(Debug, Copy, Clone, PartialEq, Eq, Structural)]
pub enum Mode {
    /// Wait as long as necessary to complete the operation.
    Blocking,
    /// Never wait; report that the operation would block.
    NonBlocking,
    /// Wait up to the max timeout of each command.
    Timeout,
}

/// Control messages sent from the client to the ingress manager, used to
/// re-synchronize the two sides (for example after a command timeout).
#[derive(Debug, Copy, Clone, PartialEq, Eq, Structural)]
pub enum Command {
    /// Clear the receive buffer and return the digester to its idle state.
    Reset,
    /// Force the digester into its receiving state, for setups where the
    /// modem echo is disabled and no echo line will announce a response.
    ForceReceiveState,
}

/// Configuration shared by the ingress manager and the AT client.
#[derive(Debug, Copy, Clone, PartialEq, Eq, Structural)]
pub struct Config {
    pub mode: Mode,
    pub line_term_char: u8,
    pub format_char: u8,
    pub at_echo_enabled: bool,
    pub cmd_cooldown: u32,
}

impl Default for Config {
    /// The default configuration: blocking mode, `\r` line termination,
    /// `\n` formatting, echo enabled and a 20 ms inter-command cooldown.
    fn default() -> (c: Config)
        ensures
            c.mode == Mode::Blocking,
            c.line_term_char == 13u8,
            c.format_char == 10u8,
            c.at_echo_enabled == true,
            c.cmd_cooldown == 20u32,
    {
        Config {
            mode: Mode::Blocking,
            line_term_char: 13,
            format_char: 10,
            at_echo_enabled: true,
            cmd_cooldown: 20,
        }
    }
}

impl Config {
    pub fn new(mode: Mode) -> (c: Config)
        ensures
            c.mode == mode,
            c.line_term_char == 13u8,
            c.format_char == 10u8,
            c.at_echo_enabled == true,
            c.cmd_cooldown == 20u32,
    {
        Config {
            mode,
            line_term_char: 13,
            format_char: 10,
            at_echo_enabled: true,
            cmd_cooldown: 20,
        }
    }

    pub fn with_line_term(self, c: u8) -> (r: Config)
        ensures
            r == (Config { line_term_char: c, ..self }),
    {
        Config { line_term_char: c, ..self }
    }

    pub fn with_format_char(self, c: u8) -> (r: Config)
        ensures
            r == (Config { format_char: c, ..self }),
    {
        Config { format_char: c, ..self }
    }

    pub fn with_at_echo(self, e: bool) -> (r: Config)
        ensures
            r == (Config { at_echo_enabled: e, ..self }),
    {
        Config { at_echo_enabled: e, ..self }
    }

    pub fn cmd_cooldown(self, ms: u32) -> (r: Config)
        ensures
            r == (Config { cmd_cooldown: ms, ..self }),
    {
        Config { cmd_cooldown: ms, ..self }
    }
}

} // verus!
