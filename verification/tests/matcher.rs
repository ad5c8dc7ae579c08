use atat::digest::{
    digest_once, digest_once_with, DefaultUrcMatcher, DigestResult, DigestState,
};

#[test]
fn default_matcher_falls_through() {
    // With the default matcher a `+` line is digested as an ordinary
    // URC line, exactly as without a matcher.
    let mut m = DefaultUrcMatcher;
    let buf = b"+UUSORD: 3,16\r\nrest";
    let with = digest_once_with(&mut m, buf, DigestState::Idle, true, b'\r', b'\n');
    let without = digest_once(buf, DigestState::Idle, true, b'\r', b'\n');
    assert_eq!(with, without);
    assert_eq!(
        with,
        (
            DigestResult::Urc(b"+UUSORD: 3,16".to_vec()),
            14,
            DigestState::Idle
        )
    );
}

#[test]
fn digest_once_reports_consumption() {
    // An echo line: nothing emitted, bytes consumed, state advanced.
    let (r, consumed, state) = digest_once(b"AT\r\n", DigestState::Idle, true, b'\r', b'\n');
    assert_eq!(r, DigestResult::Pending);
    assert_eq!(consumed, 3);
    assert_eq!(state, DigestState::ReceivingResponse);

    // An incomplete fragment: only the leading delimiters go.
    let (r, consumed, state) =
        digest_once(b"\r\npartial", DigestState::Idle, true, b'\r', b'\n');
    assert_eq!(r, DigestResult::Pending);
    assert_eq!(consumed, 2);
    assert_eq!(state, DigestState::Idle);
}
