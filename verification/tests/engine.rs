use atat::client::{Client, ClientAction, ClientEvent};
use atat::digest::DigestState;
use atat::error::{Error, InternalError};
use atat::ingress::IngressManager;
use atat::Command;
use atat::Config;
use atat::Mode;

fn fresh() -> IngressManager {
    IngressManager::new(&Config::default())
}

#[test]
fn overflow() {
    let mut ingress = fresh();
    ingress.write(b"+USORD: 3,266,\"");
    for _ in 0..266 {
        ingress.write(b"s");
    }
    ingress.write(b"\"\r\n");
    ingress.digest();
    assert_eq!(
        ingress.dequeue_response(),
        Some(Err(InternalError::Overflow))
    );
}

#[test]
fn no_response_body() {
    let mut ingress = fresh();
    ingress.write(b"AT\r\r\n");
    ingress.digest();
    assert_eq!(ingress.digest_state(), DigestState::ReceivingResponse);
    ingress.write(b"OK\r\n");
    ingress.digest();
    assert_eq!(ingress.dequeue_response(), Some(Ok(Vec::new())));
    assert_eq!(ingress.digest_state(), DigestState::Idle);
}

#[test]
fn data_response() {
    let mut ingress = fresh();
    ingress.write(b"AT+USORD=3,16\r\n");
    ingress.digest();
    ingress.write(b"+USORD: 3,16,\"16 bytes of data\"\r\n");
    ingress.digest();
    ingress.write(b"OK\r\n");
    ingress.digest();
    assert_eq!(
        ingress.dequeue_response(),
        Some(Ok(b"+USORD: 3,16,\"16 bytes of data\"".to_vec()))
    );
    assert_eq!(ingress.digest_state(), DigestState::Idle);
}

#[test]
fn multi_line_response() {
    let mut ingress = fresh();
    ingress.write(b"AT+GMR\r\r\n");
    ingress.digest();
    assert_eq!(ingress.digest_state(), DigestState::ReceivingResponse);
    ingress.write(b"AT version:1.1.0.0(May 11 2016 18:09:56)\r\n");
    ingress.write(b"SDK version:1.5.4(baaeaebb)\r\n");
    ingress.write(b"compile time:May 20 2016 15:08:19\r\n");
    ingress.write(b"OK\r\n");
    ingress.digest();
    assert_eq!(
        ingress.dequeue_response(),
        Some(Ok(
            b"AT version:1.1.0.0(May 11 2016 18:09:56)\r\nSDK version:1.5.4(baaeaebb)\r\ncompile time:May 20 2016 15:08:19"
                .to_vec()
        ))
    );
    assert_eq!(ingress.digest_state(), DigestState::Idle);
}

#[test]
fn urc_in_idle() {
    let mut ingress = fresh();
    ingress.write(b"+UUSORD: 3,16,\"16 bytes of data\"\r\n");
    ingress.digest();
    assert_eq!(
        ingress.dequeue_urc(),
        Some(b"+UUSORD: 3,16,\"16 bytes of data\"".to_vec())
    );
    assert_eq!(ingress.digest_state(), DigestState::Idle);
    assert_eq!(ingress.dequeue_response(), None);
}

#[test]
fn error_response() {
    let mut ingress = fresh();
    ingress.write(b"AT+USORD=3,16\r\n");
    ingress.digest();
    ingress.write(b"ERROR\r\n");
    ingress.digest();
    assert_eq!(ingress.dequeue_response(), Some(Err(InternalError::Error)));
    assert_eq!(ingress.digest_state(), DigestState::Idle);
    assert!(ingress.is_empty());
}

#[test]
fn chunkwise_non_at_noise() {
    let mut ingress = fresh();
    ingress.write(b"THIS FORM");
    ingress.digest();
    assert_eq!(ingress.digest_state(), DigestState::Idle);
    assert_eq!(ingress.dequeue_response(), None);
    ingress.write(b"AT SUCKS\r\n");
    ingress.digest();
    assert_eq!(ingress.digest_state(), DigestState::Idle);
    assert_eq!(ingress.dequeue_response(), None);
    ingress.digest();
    assert!(ingress.is_empty());
}

#[test]
fn bytewise_at_command() {
    let mut ingress = fresh();
    for b in b"AT\r\n" {
        ingress.write(&[*b]);
        ingress.digest();
    }
    assert_eq!(ingress.digest_state(), DigestState::ReceivingResponse);
}

#[test]
fn cme_error_response() {
    let mut ingress = fresh();
    ingress.write(b"AT+CPIN?\r\n");
    ingress.digest();
    ingress.write(b"+CME ERROR: 100\r\n");
    ingress.digest();
    assert_eq!(
        ingress.dequeue_response(),
        Some(Err(InternalError::CmeError(100)))
    );
    assert_eq!(ingress.digest_state(), DigestState::Idle);
}

#[test]
fn cms_error_response() {
    let mut ingress = fresh();
    ingress.write(b"AT+CMGS=12\r\n");
    ingress.digest();
    ingress.write(b"+CMS ERROR: 305\r\n");
    ingress.digest();
    assert_eq!(
        ingress.dequeue_response(),
        Some(Err(InternalError::CmsError(305)))
    );
}

#[test]
fn aborted_response() {
    let mut ingress = fresh();
    ingress.write(b"AT+COPS=?\r\n");
    ingress.digest();
    ingress.write(b"ABORTED\r\n");
    ingress.digest();
    assert_eq!(
        ingress.dequeue_response(),
        Some(Err(InternalError::Aborted))
    );
}

#[test]
fn prompt_response() {
    let mut ingress = fresh();
    ingress.write(b"AT+CMGS=12\r\n");
    ingress.digest();
    ingress.write(b">");
    ingress.digest();
    assert_eq!(ingress.dequeue_response(), Some(Ok(Vec::new())));
    assert_eq!(ingress.digest_state(), DigestState::Idle);
}

#[test]
fn chunk_invariance_urc() {
    // One URC delivered whole versus split at arbitrary byte boundaries.
    let stream: &[u8] = b"+UUSORD: 3,16,\"16 bytes of data\"\r\n";
    let mut whole = fresh();
    whole.write(stream);
    whole.digest();

    for cut in 1..stream.len() {
        let mut chunked = fresh();
        chunked.write(&stream[..cut]);
        chunked.digest();
        let early = chunked.dequeue_urc();
        chunked.write(&stream[cut..]);
        chunked.digest();
        let late = chunked.dequeue_urc();
        let got = early.or(late);
        assert_eq!(got, Some(b"+UUSORD: 3,16,\"16 bytes of data\"".to_vec()));
        assert_eq!(chunked.digest_state(), DigestState::Idle);
        assert!(chunked.is_empty());
    }
    assert_eq!(
        whole.dequeue_urc(),
        Some(b"+UUSORD: 3,16,\"16 bytes of data\"".to_vec())
    );
}

#[test]
fn buffer_boundedness() {
    let mut ingress = fresh();
    assert_eq!(ingress.capacity(), 256);
    ingress.write(&[b'x'; 200]);
    assert_eq!(ingress.len(), 200);
    // A second extension that does not fit flushes the buffer and
    // reports exactly one overflow.
    ingress.write(&[b'y'; 100]);
    assert_eq!(ingress.len(), 0);
    assert_eq!(
        ingress.dequeue_response(),
        Some(Err(InternalError::Overflow))
    );
    assert_eq!(ingress.dequeue_response(), None);
}

#[test]
fn round_trip_scenario() {
    // The wire image of one interaction — echo, one body line, OK —
    // yields a response equal to the body trimmed of outer delimiters.
    let mut ingress = fresh();
    ingress.write(b"AT+X\r\r\nbody line\r\nOK\r\n");
    ingress.digest();
    assert_eq!(ingress.dequeue_response(), Some(Ok(b"body line".to_vec())));
    assert_eq!(ingress.digest_state(), DigestState::Idle);
    assert!(ingress.is_empty());
}

#[test]
fn urc_never_on_response_queue() {
    let mut ingress = fresh();
    ingress.write(b"+UUPSDD: 0\r\n");
    ingress.digest();
    ingress.write(b"AT\r\n");
    ingress.digest();
    ingress.write(b"OK\r\n");
    ingress.digest();
    // The URC is only on the URC queue, the response only on the
    // response queue.
    assert_eq!(ingress.dequeue_urc(), Some(b"+UUPSDD: 0".to_vec()));
    assert_eq!(ingress.dequeue_urc(), None);
    assert_eq!(ingress.dequeue_response(), Some(Ok(Vec::new())));
    assert_eq!(ingress.dequeue_response(), None);
}

#[test]
fn reset_idempotent() {
    let mut once = fresh();
    once.write(b"AT+X\r\nhalf a resp");
    assert!(once.enqueue_control(Command::Reset));
    once.digest();

    let mut twice = fresh();
    twice.write(b"AT+X\r\nhalf a resp");
    assert!(twice.enqueue_control(Command::Reset));
    assert!(twice.enqueue_control(Command::Reset));
    twice.digest();

    assert_eq!(once.digest_state(), twice.digest_state());
    assert_eq!(once.len(), twice.len());
    assert_eq!(once.len(), 0);
    assert_eq!(once.digest_state(), DigestState::Idle);
}

#[test]
fn timeout_resynchronization() {
    let mut ingress = fresh();
    // A command whose response never finishes.
    ingress.write(b"AT+SLOW\r\n");
    ingress.digest();
    ingress.write(b"partial answ");
    ingress.digest();
    assert_eq!(ingress.dequeue_response(), None);
    // The client times out and resets.
    assert!(ingress.enqueue_control(Command::Reset));
    ingress.digest();
    assert_eq!(ingress.digest_state(), DigestState::Idle);
    assert!(ingress.is_empty());
    // The next correctly-formed command completes normally.
    ingress.write(b"AT+FAST\r\n");
    ingress.digest();
    ingress.write(b"answer\r\nOK\r\n");
    ingress.digest();
    assert_eq!(ingress.dequeue_response(), Some(Ok(b"answer".to_vec())));
    assert_eq!(ingress.digest_state(), DigestState::Idle);
}

#[test]
fn force_receive_state() {
    let mut ingress = IngressManager::new(&Config::default().with_at_echo(false));
    assert!(ingress.enqueue_control(Command::ForceReceiveState));
    ingress.write(b"reply without echo\r\nOK\r\n");
    ingress.digest();
    assert_eq!(
        ingress.dequeue_response(),
        Some(Ok(b"reply without echo".to_vec()))
    );
}

#[test]
fn noise_line_does_not_clear_echo() {
    let mut ingress = fresh();
    ingress.write(b"some status msg\r\n");
    ingress.digest();
    assert_eq!(ingress.digest_state(), DigestState::Idle);
    ingress.write(b"AT+GMR\r\r\n");
    ingress.digest();
    assert_eq!(ingress.digest_state(), DigestState::ReceivingResponse);
}

#[test]
fn client_poll_decisions() {
    let client = Client::new(Config::new(Mode::Blocking));
    assert_eq!(client.cooldown_ms(), 20);
    assert_eq!(
        client.poll_response(ClientEvent::Response(Ok(b"abc".to_vec()))),
        ClientAction::Deliver(Ok(b"abc".to_vec()))
    );
    assert_eq!(
        client.poll_response(ClientEvent::Response(Err(InternalError::Error))),
        ClientAction::Deliver(Err(Error::Error))
    );
    // A blocking client waits as long as necessary, even past the timer.
    assert_eq!(
        client.poll_response(ClientEvent::TimerExpired),
        ClientAction::KeepPolling
    );
    assert_eq!(
        client.poll_response(ClientEvent::NoResponse),
        ClientAction::KeepPolling
    );
    let bounded = Client::new(Config::new(Mode::Timeout));
    assert_eq!(
        bounded.poll_response(ClientEvent::TimerExpired),
        ClientAction::ResetAndTimeout
    );
    let nb = Client::new(Config::new(Mode::NonBlocking));
    assert_eq!(
        nb.poll_response(ClientEvent::NoResponse),
        ClientAction::YieldWouldBlock
    );
    assert_eq!(
        nb.poll_response(ClientEvent::TimerExpired),
        ClientAction::ResetAndTimeout
    );
    assert!(client.needs_reset(&Err(Error::Timeout)));
    assert!(!client.needs_reset(&Ok(Vec::new())));
    assert_eq!(client.reset_command(), Command::Reset);
}

#[test]
fn custom_error_truncation() {
    let long: Vec<u8> = (0..100u8).collect();
    let mapped = Error::from_internal(&InternalError::Custom(long.clone()));
    assert_eq!(mapped, Error::Custom(long[..64].to_vec()));
    assert_eq!(
        Error::from_internal(&InternalError::CmeError(7)),
        Error::CmeError(7)
    );
    assert_eq!(
        Error::from_internal(&InternalError::Timeout),
        Error::Timeout
    );
}

#[test]
fn config_builders() {
    let c = Config::new(Mode::Timeout)
        .with_line_term(b'\n')
        .with_format_char(b'\r')
        .with_at_echo(false)
        .cmd_cooldown(55);
    assert_eq!(c.mode, Mode::Timeout);
    assert_eq!(c.line_term_char, b'\n');
    assert_eq!(c.format_char, b'\r');
    assert!(!c.at_echo_enabled);
    assert_eq!(c.cmd_cooldown, 55);
}

#[test]
fn bytewise_full_interaction() {
    // A whole interaction delivered one byte at a time, digesting after
    // each byte, ends in the same single response as scenario-style
    // delivery.
    let mut ingress = fresh();
    let mut responses = Vec::new();
    for b in b"AT+GMR\r\r\nversion 1.2\r\nOK\r\n" {
        ingress.write(&[*b]);
        ingress.digest();
        while let Some(r) = ingress.dequeue_response() {
            responses.push(r);
        }
    }
    assert_eq!(responses, vec![Ok(b"version 1.2".to_vec())]);
    assert_eq!(ingress.digest_state(), DigestState::Idle);
    assert!(ingress.is_empty());
}

#[test]
fn exact_capacity_write() {
    // A write that lands exactly on the capacity is kept whole; one
    // byte more overflows.
    let mut ingress = fresh();
    ingress.write(&[b'a'; 256]);
    assert_eq!(ingress.len(), 256);
    assert_eq!(ingress.dequeue_response(), None);
    ingress.write(b"b");
    assert_eq!(ingress.len(), 0);
    assert_eq!(
        ingress.dequeue_response(),
        Some(Err(InternalError::Overflow))
    );
}

#[test]
fn empty_write_and_digest() {
    let mut ingress = fresh();
    ingress.write(b"");
    ingress.digest();
    assert!(ingress.is_empty());
    assert_eq!(ingress.digest_state(), DigestState::Idle);
    assert_eq!(ingress.dequeue_response(), None);
    assert_eq!(ingress.dequeue_urc(), None);
}

#[test]
fn cme_code_saturates() {
    // A code beyond the width is reported as the largest code.
    let mut ingress = fresh();
    ingress.write(b"AT+X\r\n");
    ingress.digest();
    ingress.write(b"+CME ERROR: 70000\r\n");
    ingress.digest();
    assert_eq!(
        ingress.dequeue_response(),
        Some(Err(InternalError::CmeError(65535)))
    );
}

#[test]
fn response_queue_drops_when_full() {
    // Six completed responses into a queue of five: the sixth is
    // dropped, its bytes still consumed.
    let mut ingress = fresh();
    for _ in 0..6 {
        ingress.write(b"AT\r\nOK\r\n");
        ingress.digest();
    }
    assert!(ingress.is_empty());
    for _ in 0..5 {
        assert_eq!(ingress.dequeue_response(), Some(Ok(Vec::new())));
    }
    assert_eq!(ingress.dequeue_response(), None);
}

#[test]
fn reset_idempotent_with_following_command() {
    // Two pending resets equal one, also with a further command queued
    // behind them.
    let mut once = fresh();
    once.write(b"stale bytes");
    assert!(once.enqueue_control(Command::Reset));
    assert!(once.enqueue_control(Command::ForceReceiveState));
    once.digest();

    let mut twice = fresh();
    twice.write(b"stale bytes");
    assert!(twice.enqueue_control(Command::Reset));
    assert!(twice.enqueue_control(Command::Reset));
    assert!(twice.enqueue_control(Command::ForceReceiveState));
    twice.digest();

    assert_eq!(once.digest_state(), twice.digest_state());
    assert_eq!(once.digest_state(), DigestState::ReceivingResponse);
    assert_eq!(once.len(), twice.len());
    assert_eq!(once.len(), 0);
}
