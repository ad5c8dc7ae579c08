//! The streaming digester: a pure function that classifies the bytes
//! accumulated from the modem into responses, URCs and prompts.
//!
//! The executable digester is specified against a mathematical model,
//! [`spec_digest`], that describes one digest pass over the buffer, and
//! [`spec_run`], that describes digesting to quiescence.

use vstd::prelude::*;

use crate::error::InternalError;

verus! {

/// The state of the digester between passes.
#[derive(Debug, Copy, Clone, PartialEq, Eq, Structural)]
pub enum DigestState {
    /// No command is outstanding; input is a URC, swallowed echo, or noise.
    Idle,
    /// A command echo was seen (or the state was forced); input is the
    /// response body up to a terminal token.
    ReceivingResponse,
}

/// What one digest pass produced.
#[derive(Debug, PartialEq, Eq)]
pub enum DigestResult {
    /// No complete event yet; the unconsumed bytes are retained.
    Pending,
    /// A line-mode prompt byte (`>` or `@`) was seen.
    Prompt(u8),
    /// One unsolicited result code line, without its terminator.
    Urc(Vec<u8>),
    /// A completed command response: its body on success, or the error the
    /// modem signalled.
    Response(Result<Vec<u8>, InternalError>),
}

/// An event at the specification level, with byte payloads as sequences.
pub enum SpecEvent {
    Prompt(u8),
    Urc(Seq<u8>),
    Resp(Result<Seq<u8>, InternalError>),
}

/// One digest pass at the specification level: the event emitted (if any),
/// how many bytes of the buffer head were consumed, and the next state.
pub struct SpecStep {
    pub event: Option<SpecEvent>,
    pub consumed: int,
    pub next: DigestState,
}

/// The view of an executable digest result as an optional event.
pub open spec fn result_view(r: DigestResult) -> Option<SpecEvent> {
    match r {
        DigestResult::Pending => None,
        DigestResult::Prompt(c) => Some(SpecEvent::Prompt(c)),
        DigestResult::Urc(v) => Some(SpecEvent::Urc(v@)),
        DigestResult::Response(res) => Some(SpecEvent::Resp(match res {
            Ok(v) => Ok(v@),
            Err(e) => Err(e),
        })),
    }
}

/// Whether `c` is one of the two line-delimiting bytes: the line
/// termination byte `lt` or the formatting byte `fc`.
pub open spec fn is_term(c: u8, lt: u8, fc: u8) -> bool {
    c == lt || c == fc
}

/// The first index at or after `i` holding a byte that is not a line
/// delimiter, or `s.len()` if there is none.
pub open spec fn first_nonterm_from(s: Seq<u8>, lt: u8, fc: u8, i: int) -> int
    decreases s.len() - i,
{
    if i < 0 || i >= s.len() {
        s.len() as int
    } else if !is_term(s[i], lt, fc) {
        i
    } else {
        first_nonterm_from(s, lt, fc, i + 1)
    }
}

/// The first index at or after `i` holding a line delimiter, or `s.len()`
/// if there is none.
pub open spec fn first_term_from(s: Seq<u8>, lt: u8, fc: u8, i: int) -> int
    decreases s.len() - i,
{
    if i < 0 || i >= s.len() {
        s.len() as int
    } else if is_term(s[i], lt, fc) {
        i
    } else {
        first_term_from(s, lt, fc, i + 1)
    }
}

/// Whether the token `tok` stands at index `i` of `s`, at the start of a
/// line (the buffer head or a preceding line delimiter) and followed by a
/// line delimiter.
pub open spec fn tok_at(s: Seq<u8>, tok: Seq<u8>, lt: u8, fc: u8, i: int) -> bool {
    &&& 0 <= i
    &&& i + tok.len() + 1 <= s.len()
    &&& (i == 0 || is_term(s[i - 1], lt, fc))
    &&& s.subrange(i, i + tok.len()) == tok
    &&& is_term(s[i + tok.len()], lt, fc)
}

/// The first index at or after `i` where `tok` stands line-anchored and
/// delimiter-terminated, or `s.len()` if there is none.
pub open spec fn first_tok_from(s: Seq<u8>, tok: Seq<u8>, lt: u8, fc: u8, i: int) -> int
    decreases s.len() - i,
{
    if i < 0 || i >= s.len() {
        s.len() as int
    } else if tok_at(s, tok, lt, fc, i) {
        i
    } else {
        first_tok_from(s, tok, lt, fc, i + 1)
    }
}

/// Whether the header `hdr` (an error prefix such as `+CME ERROR:`) stands
/// line-anchored at index `i` of `s`.
pub open spec fn hdr_at(s: Seq<u8>, hdr: Seq<u8>, lt: u8, fc: u8, i: int) -> bool {
    &&& 0 <= i
    &&& i + hdr.len() <= s.len()
    &&& (i == 0 || is_term(s[i - 1], lt, fc))
    &&& s.subrange(i, i + hdr.len()) == hdr
}

/// The first index at or after `i` where `hdr` stands line-anchored, or
/// `s.len()` if there is none.
pub open spec fn first_hdr_from(s: Seq<u8>, hdr: Seq<u8>, lt: u8, fc: u8, i: int) -> int
    decreases s.len() - i,
{
    if i < 0 || i >= s.len() {
        s.len() as int
    } else if hdr_at(s, hdr, lt, fc, i) {
        i
    } else {
        first_hdr_from(s, hdr, lt, fc, i + 1)
    }
}

/// The first index at or after `i` holding a prompt byte (`>` or `@`), or
/// `s.len()` if there is none.
pub open spec fn first_prompt_from(s: Seq<u8>, i: int) -> int
    decreases s.len() - i,
{
    if i < 0 || i >= s.len() {
        s.len() as int
    } else if s[i] == 62 || s[i] == 64 {
        i
    } else {
        first_prompt_from(s, i + 1)
    }
}

/// The numeric code spelled by the decimal digits of `s[from..to]`, read
/// left to right, ignoring any other bytes, and saturating at `u16::MAX`.
pub open spec fn code_val(s: Seq<u8>, from: int, to: int) -> int
    decreases to - from,
{
    if to <= from {
        0
    } else {
        let p = code_val(s, from, to - 1);
        if 48 <= s[to - 1] <= 57 {
            if p * 10 + (s[to - 1] - 48) > 65535 {
                65535
            } else {
                p * 10 + (s[to - 1] - 48)
            }
        } else {
            p
        }
    }
}

/// `s` with its trailing line delimiters removed.
pub open spec fn trim_back(s: Seq<u8>, lt: u8, fc: u8) -> Seq<u8>
    decreases s.len(),
{
    if s.len() > 0 && is_term(s.last(), lt, fc) {
        trim_back(s.drop_last(), lt, fc)
    } else {
        s
    }
}

/// The `OK` token.
pub open spec fn ok_tok() -> Seq<u8> {
    seq![79u8, 75u8]
}

/// The `ERROR` token.
pub open spec fn error_tok() -> Seq<u8> {
    seq![69u8, 82u8, 82u8, 79u8, 82u8]
}

/// The `ABORTED` token.
pub open spec fn aborted_tok() -> Seq<u8> {
    seq![65u8, 66u8, 79u8, 82u8, 84u8, 69u8, 68u8]
}

/// The `+CME ERROR:` header.
pub open spec fn cme_hdr() -> Seq<u8> {
    seq![43u8, 67u8, 77u8, 69u8, 32u8, 69u8, 82u8, 82u8, 79u8, 82u8, 58u8]
}

/// The `+CMS ERROR:` header.
pub open spec fn cms_hdr() -> Seq<u8> {
    seq![43u8, 67u8, 77u8, 83u8, 32u8, 69u8, 82u8, 82u8, 79u8, 82u8, 58u8]
}

/// One digest pass in the idle state, starting at the first non-delimiter
/// byte `w` of `s`: swallow a command echo, extract a URC line, or discard
/// a complete noise line.
pub open spec fn spec_digest_idle(s: Seq<u8>, w: int, echo: bool, lt: u8, fc: u8) -> SpecStep {
    if echo && w + 2 <= s.len() && s[w] == 65 && s[w + 1] == 84 {
        let t = first_term_from(s, lt, fc, w);
        if t < s.len() {
            SpecStep { event: None, consumed: t + 1, next: DigestState::ReceivingResponse }
        } else {
            SpecStep { event: None, consumed: w, next: DigestState::Idle }
        }
    } else if s[w] == 43 {
        let t = first_term_from(s, lt, fc, w);
        if t < s.len() {
            SpecStep {
                event: Some(SpecEvent::Urc(s.subrange(w, t))),
                consumed: t + 1,
                next: DigestState::Idle,
            }
        } else {
            SpecStep { event: None, consumed: w, next: DigestState::Idle }
        }
    } else {
        let t = first_term_from(s, lt, fc, w);
        if t < s.len() {
            SpecStep { event: None, consumed: t + 1, next: DigestState::Idle }
        } else {
            SpecStep { event: None, consumed: w, next: DigestState::Idle }
        }
    }
}

/// One digest pass in the receiving state, starting at the first
/// non-delimiter byte `w` of `s`: scan for the terminal tokens in their
/// strict order `OK`, `+CME ERROR:`, `+CMS ERROR:`, `ERROR`, `ABORTED`,
/// prompt byte.
pub open spec fn spec_digest_recv(s: Seq<u8>, w: int, lt: u8, fc: u8) -> SpecStep {
    let iok = first_tok_from(s, ok_tok(), lt, fc, w);
    let icme = first_hdr_from(s, cme_hdr(), lt, fc, w);
    let icms = first_hdr_from(s, cms_hdr(), lt, fc, w);
    let ierr = first_tok_from(s, error_tok(), lt, fc, w);
    let iab = first_tok_from(s, aborted_tok(), lt, fc, w);
    let ipr = first_prompt_from(s, w);
    if iok < s.len() {
        SpecStep {
            event: Some(SpecEvent::Resp(Ok(trim_back(s.subrange(w, iok), lt, fc)))),
            consumed: iok + 3,
            next: DigestState::Idle,
        }
    } else if icme < s.len() && first_term_from(s, lt, fc, icme + 11) < s.len() {
        let t = first_term_from(s, lt, fc, icme + 11);
        SpecStep {
            event: Some(SpecEvent::Resp(Err(InternalError::CmeError(
                code_val(s, icme + 11, t) as u16,
            )))),
            consumed: t + 1,
            next: DigestState::Idle,
        }
    } else if icms < s.len() && first_term_from(s, lt, fc, icms + 11) < s.len() {
        let t = first_term_from(s, lt, fc, icms + 11);
        SpecStep {
            event: Some(SpecEvent::Resp(Err(InternalError::CmsError(
                code_val(s, icms + 11, t) as u16,
            )))),
            consumed: t + 1,
            next: DigestState::Idle,
        }
    } else if ierr < s.len() {
        SpecStep {
            event: Some(SpecEvent::Resp(Err(InternalError::Error))),
            consumed: ierr + 6,
            next: DigestState::Idle,
        }
    } else if iab < s.len() {
        SpecStep {
            event: Some(SpecEvent::Resp(Err(InternalError::Aborted))),
            consumed: iab + 8,
            next: DigestState::Idle,
        }
    } else if ipr < s.len() {
        SpecStep {
            event: Some(SpecEvent::Prompt(s[ipr])),
            consumed: ipr + 1,
            next: DigestState::Idle,
        }
    } else {
        SpecStep { event: None, consumed: w, next: DigestState::ReceivingResponse }
    }
}

/// Bounds and characterization of [`first_nonterm_from`]: the result lies
/// between `i` and `s.len()`, everything before it is a delimiter, and it
/// points at a non-delimiter when it is in range.
pub proof fn lemma_first_nonterm_from(s: Seq<u8>, lt: u8, fc: u8, i: int)
    requires
        0 <= i <= s.len(),
    ensures
        i <= first_nonterm_from(s, lt, fc, i) <= s.len(),
        first_nonterm_from(s, lt, fc, i) < s.len() ==> !is_term(
            s[first_nonterm_from(s, lt, fc, i)],
            lt,
            fc,
        ),
        forall|j: int|
            i <= j < first_nonterm_from(s, lt, fc, i) ==> is_term(s[j], lt, fc),
    decreases s.len() - i,
{
    if i < s.len() && is_term(s[i], lt, fc) {
        lemma_first_nonterm_from(s, lt, fc, i + 1);
    }
}

/// Bounds and characterization of [`first_term_from`].
pub proof fn lemma_first_term_from(s: Seq<u8>, lt: u8, fc: u8, i: int)
    requires
        0 <= i <= s.len(),
    ensures
        i <= first_term_from(s, lt, fc, i) <= s.len(),
        first_term_from(s, lt, fc, i) < s.len() ==> is_term(
            s[first_term_from(s, lt, fc, i)],
            lt,
            fc,
        ),
        forall|j: int|
            i <= j < first_term_from(s, lt, fc, i) ==> !is_term(s[j], lt, fc),
    decreases s.len() - i,
{
    if i < s.len() && !is_term(s[i], lt, fc) {
        lemma_first_term_from(s, lt, fc, i + 1);
    }
}

/// Bounds and characterization of [`first_tok_from`].
pub proof fn lemma_first_tok_from(s: Seq<u8>, tok: Seq<u8>, lt: u8, fc: u8, i: int)
    requires
        0 <= i <= s.len(),
    ensures
        i <= first_tok_from(s, tok, lt, fc, i) <= s.len(),
        first_tok_from(s, tok, lt, fc, i) < s.len() ==> tok_at(
            s,
            tok,
            lt,
            fc,
            first_tok_from(s, tok, lt, fc, i),
        ),
        forall|j: int|
            i <= j < first_tok_from(s, tok, lt, fc, i) ==> !tok_at(s, tok, lt, fc, j),
    decreases s.len() - i,
{
    if i < s.len() && !tok_at(s, tok, lt, fc, i) {
        lemma_first_tok_from(s, tok, lt, fc, i + 1);
    }
}

/// Bounds and characterization of [`first_hdr_from`].
pub proof fn lemma_first_hdr_from(s: Seq<u8>, hdr: Seq<u8>, lt: u8, fc: u8, i: int)
    requires
        0 <= i <= s.len(),
    ensures
        i <= first_hdr_from(s, hdr, lt, fc, i) <= s.len(),
        first_hdr_from(s, hdr, lt, fc, i) < s.len() ==> hdr_at(
            s,
            hdr,
            lt,
            fc,
            first_hdr_from(s, hdr, lt, fc, i),
        ),
        forall|j: int|
            i <= j < first_hdr_from(s, hdr, lt, fc, i) ==> !hdr_at(s, hdr, lt, fc, j),
    decreases s.len() - i,
{
    if i < s.len() && !hdr_at(s, hdr, lt, fc, i) {
        lemma_first_hdr_from(s, hdr, lt, fc, i + 1);
    }
}

/// Bounds and characterization of [`first_prompt_from`].
pub proof fn lemma_first_prompt_from(s: Seq<u8>, i: int)
    requires
        0 <= i <= s.len(),
    ensures
        i <= first_prompt_from(s, i) <= s.len(),
        first_prompt_from(s, i) < s.len() ==> (s[first_prompt_from(s, i)] == 62
            || s[first_prompt_from(s, i)] == 64),
        forall|j: int|
            i <= j < first_prompt_from(s, i) ==> !(s[j] == 62 || s[j] == 64),
    decreases s.len() - i,
{
    if i < s.len() && !(s[i] == 62 || s[i] == 64) {
        lemma_first_prompt_from(s, i + 1);
    }
}

/// The saturated code value stays within `u16`.
pub proof fn lemma_code_val_bounds(s: Seq<u8>, from: int, to: int)
    ensures
        0 <= code_val(s, from, to) <= 65535,
    decreases to - from,
{
    if to > from {
        lemma_code_val_bounds(s, from, to - 1);
    }
}

/// When `idx` is a delimiter and nothing before it (from `from` on) is,
/// the scan stops exactly there.
pub proof fn lemma_pin_first_term(s: Seq<u8>, lt: u8, fc: u8, from: int, idx: int)
    requires
        0 <= from <= idx < s.len(),
        is_term(s[idx], lt, fc),
        forall|j: int| from <= j < idx ==> !is_term(s[j], lt, fc),
    ensures
        first_term_from(s, lt, fc, from) == idx,
{
    lemma_first_term_from(s, lt, fc, from);
}

/// When `idx` holds a non-delimiter and everything before it (from `from`
/// on) is a delimiter, the scan stops exactly there.
pub proof fn lemma_pin_first_nonterm(s: Seq<u8>, lt: u8, fc: u8, from: int, idx: int)
    requires
        0 <= from <= idx < s.len(),
        !is_term(s[idx], lt, fc),
        forall|j: int| from <= j < idx ==> is_term(s[j], lt, fc),
    ensures
        first_nonterm_from(s, lt, fc, from) == idx,
{
    lemma_first_nonterm_from(s, lt, fc, from);
}

/// When the token stands at `idx` and at no earlier position from `from`
/// on, the scan stops exactly there.
pub proof fn lemma_pin_first_tok(s: Seq<u8>, tok: Seq<u8>, lt: u8, fc: u8, from: int, idx: int)
    requires
        0 <= from <= idx < s.len(),
        tok_at(s, tok, lt, fc, idx),
        forall|j: int| from <= j < idx ==> !tok_at(s, tok, lt, fc, j),
    ensures
        first_tok_from(s, tok, lt, fc, from) == idx,
{
    lemma_first_tok_from(s, tok, lt, fc, from);
}

/// One digest pass consumes at least the leading delimiters and never more
/// than the whole buffer, and it consumes something whenever it emits.
pub proof fn lemma_spec_digest_bounds(s: Seq<u8>, st: DigestState, echo: bool, lt: u8, fc: u8)
    ensures
        0 <= spec_digest(s, st, echo, lt, fc).consumed <= s.len(),
        spec_digest(s, st, echo, lt, fc).event is Some ==> spec_digest(
            s,
            st,
            echo,
            lt,
            fc,
        ).consumed > 0,
        spec_digest(s, st, echo, lt, fc).consumed == 0 ==> spec_digest(
            s,
            st,
            echo,
            lt,
            fc,
        ).next == st,
{
    let w = first_nonterm_from(s, lt, fc, 0);
    lemma_first_nonterm_from(s, lt, fc, 0);
    if w < s.len() {
        lemma_first_term_from(s, lt, fc, w);
        match st {
            DigestState::Idle => {},
            DigestState::ReceivingResponse => {
                lemma_first_tok_from(s, ok_tok(), lt, fc, w);
                lemma_first_hdr_from(s, cme_hdr(), lt, fc, w);
                lemma_first_hdr_from(s, cms_hdr(), lt, fc, w);
                lemma_first_tok_from(s, error_tok(), lt, fc, w);
                lemma_first_tok_from(s, aborted_tok(), lt, fc, w);
                lemma_first_prompt_from(s, w);
                let icme = first_hdr_from(s, cme_hdr(), lt, fc, w);
                if icme < s.len() {
                    lemma_first_term_from(s, lt, fc, icme + 11);
                }
                let icms = first_hdr_from(s, cms_hdr(), lt, fc, w);
                if icms < s.len() {
                    lemma_first_term_from(s, lt, fc, icms + 11);
                }
            },
        }
    }
}

/// One digest pass over the whole buffer: skip the run of leading line
/// delimiters, then classify what follows according to the state.
pub open spec fn spec_digest(s: Seq<u8>, st: DigestState, echo: bool, lt: u8, fc: u8) -> SpecStep {
    let w = first_nonterm_from(s, lt, fc, 0);
    if w >= s.len() {
        SpecStep { event: None, consumed: s.len() as int, next: st }
    } else {
        match st {
            DigestState::Idle => spec_digest_idle(s, w, echo, lt, fc),
            DigestState::ReceivingResponse => spec_digest_recv(s, w, lt, fc),
        }
    }
}

} // verus!
verus! {

/// Whether `c` is a line delimiter under the configured bytes.
pub fn is_term_byte(c: u8, lt: u8, fc: u8) -> (r: bool)
    ensures
        r == is_term(c, lt, fc),
{
    c == lt || c == fc
}

/// Scan for the first non-delimiter byte.
fn scan_nonterm(s: &[u8], lt: u8, fc: u8) -> (r: usize)
    ensures
        r as int == first_nonterm_from(s@, lt, fc, 0),
        r <= s.len(),
{
    let mut i: usize = 0;
    while i < s.len() && is_term_byte(s[i], lt, fc)
        invariant
            0 <= i <= s@.len(),
            first_nonterm_from(s@, lt, fc, 0) == first_nonterm_from(s@, lt, fc, i as int),
        decreases s@.len() - i,
    {
        i = i + 1;
    }
    i
}

/// Scan for the first line delimiter at or after `from`.
fn scan_term_from(s: &[u8], lt: u8, fc: u8, from: usize) -> (r: usize)
    requires
        from <= s@.len(),
    ensures
        r as int == first_term_from(s@, lt, fc, from as int),
        from <= r <= s.len(),
{
    let mut i: usize = from;
    while i < s.len() && !is_term_byte(s[i], lt, fc)
        invariant
            from <= i <= s@.len(),
            first_term_from(s@, lt, fc, from as int) == first_term_from(s@, lt, fc, i as int),
        decreases s@.len() - i,
    {
        i = i + 1;
    }
    i
}

/// Whether the bytes of `tok` stand at index `i` of `s`.
fn bytes_match_at(s: &[u8], tok: &[u8], i: usize) -> (r: bool)
    requires
        i + tok@.len() <= s@.len(),
    ensures
        r == (s@.subrange(i as int, i + tok@.len()) == tok@),
{
    let n = s.len();
    let mut j: usize = 0;
    while j < tok.len()
        invariant
            i + tok@.len() <= s@.len(),
            n == s@.len(),
            0 <= j <= tok@.len(),
            forall|k: int| 0 <= k < j ==> s@[i + k] == tok@[k],
        decreases tok@.len() - j,
    {
        if s[i + j] != tok[j] {
            proof {
                assert(s@.subrange(i as int, i + tok@.len())[j as int] == s@[i + j]);
            }
            return false;
        }
        j = j + 1;
    }
    proof {
        assert(s@.subrange(i as int, i + tok@.len()) =~= tok@);
    }
    true
}

/// Whether `tok` stands line-anchored and delimiter-terminated at `i`.
fn tok_match_at(s: &[u8], tok: &[u8], lt: u8, fc: u8, i: usize) -> (r: bool)
    requires
        i < s@.len(),
        tok@.len() < 1000,
    ensures
        r == tok_at(s@, tok@, lt, fc, i as int),
{
    if s.len() - i < tok.len() + 1 {
        return false;
    }
    if !(i == 0 || is_term_byte(s[i - 1], lt, fc)) {
        return false;
    }
    if !bytes_match_at(s, tok, i) {
        return false;
    }
    is_term_byte(s[i + tok.len()], lt, fc)
}

/// Scan for the first line-anchored, delimiter-terminated occurrence of
/// `tok` at or after `from`.
fn scan_tok_from(s: &[u8], tok: &[u8], lt: u8, fc: u8, from: usize) -> (r: usize)
    requires
        from <= s@.len(),
        tok@.len() < 1000,
    ensures
        r as int == first_tok_from(s@, tok@, lt, fc, from as int),
        from <= r <= s.len(),
{
    let mut i: usize = from;
    while i < s.len() && !tok_match_at(s, tok, lt, fc, i)
        invariant
            from <= i <= s@.len(),
            tok@.len() < 1000,
            first_tok_from(s@, tok@, lt, fc, from as int) == first_tok_from(
                s@,
                tok@,
                lt,
                fc,
                i as int,
            ),
        decreases s@.len() - i,
    {
        i = i + 1;
    }
    i
}

/// Whether `hdr` stands line-anchored at `i`.
fn hdr_match_at(s: &[u8], hdr: &[u8], lt: u8, fc: u8, i: usize) -> (r: bool)
    requires
        i < s@.len(),
        hdr@.len() < 1000,
    ensures
        r == hdr_at(s@, hdr@, lt, fc, i as int),
{
    if s.len() - i < hdr.len() {
        return false;
    }
    if !(i == 0 || is_term_byte(s[i - 1], lt, fc)) {
        return false;
    }
    bytes_match_at(s, hdr, i)
}

/// Scan for the first line-anchored occurrence of `hdr` at or after `from`.
fn scan_hdr_from(s: &[u8], hdr: &[u8], lt: u8, fc: u8, from: usize) -> (r: usize)
    requires
        from <= s@.len(),
        hdr@.len() < 1000,
    ensures
        r as int == first_hdr_from(s@, hdr@, lt, fc, from as int),
        from <= r <= s.len(),
{
    let mut i: usize = from;
    while i < s.len() && !hdr_match_at(s, hdr, lt, fc, i)
        invariant
            from <= i <= s@.len(),
            hdr@.len() < 1000,
            first_hdr_from(s@, hdr@, lt, fc, from as int) == first_hdr_from(
                s@,
                hdr@,
                lt,
                fc,
                i as int,
            ),
        decreases s@.len() - i,
    {
        i = i + 1;
    }
    i
}

/// Scan for the first prompt byte at or after `from`.
fn scan_prompt_from(s: &[u8], from: usize) -> (r: usize)
    requires
        from <= s@.len(),
    ensures
        r as int == first_prompt_from(s@, from as int),
        from <= r <= s.len(),
{
    let mut i: usize = from;
    while i < s.len() && !(s[i] == 62 || s[i] == 64)
        invariant
            from <= i <= s@.len(),
            first_prompt_from(s@, from as int) == first_prompt_from(s@, i as int),
        decreases s@.len() - i,
    {
        i = i + 1;
    }
    i
}

/// Read the saturating decimal code in `s[from..to]`.
fn parse_code(s: &[u8], from: usize, to: usize) -> (r: u16)
    requires
        from <= to <= s@.len(),
    ensures
        r as int == code_val(s@, from as int, to as int),
{
    let mut acc: u32 = 0;
    let mut j: usize = from;
    proof {
        lemma_code_val_bounds(s@, from as int, to as int);
    }
    while j < to
        invariant
            from <= j <= to <= s@.len(),
            acc <= 65535,
            acc as int == code_val(s@, from as int, j as int),
        decreases to - j,
    {
        let c = s[j];
        if 48 <= c && c <= 57 {
            let n = acc * 10 + ((c - 48) as u32);
            acc = if n > 65535 {
                65535
            } else {
                n
            };
        }
        j = j + 1;
    }
    acc as u16
}

/// Copy `s[from..to]` into an owned vector.
fn copy_range(s: &[u8], from: usize, to: usize) -> (v: Vec<u8>)
    requires
        from <= to <= s@.len(),
    ensures
        v@ == s@.subrange(from as int, to as int),
{
    let mut v: Vec<u8> = Vec::new();
    let mut j: usize = from;
    while j < to
        invariant
            from <= j <= to <= s@.len(),
            v@ == s@.subrange(from as int, j as int),
        decreases to - j,
    {
        v.push(s[j]);
        j = j + 1;
        proof {
            assert(v@ =~= s@.subrange(from as int, j as int));
        }
    }
    v
}

/// The sequence of events of an optional event: empty or a singleton.
pub open spec fn opt_event_seq(e: Option<SpecEvent>) -> Seq<SpecEvent> {
    match e {
        Some(ev) => seq![ev],
        None => Seq::empty(),
    }
}

/// Digesting to quiescence: apply [`spec_digest`] passes until one makes
/// no progress, collecting the emitted events, the retained bytes and the
/// final state.
pub open spec fn spec_run(s: Seq<u8>, st: DigestState, echo: bool, lt: u8, fc: u8) -> (
    Seq<SpecEvent>,
    Seq<u8>,
    DigestState,
)
    decreases s.len(),
    via spec_run_decreases
{
    let step = spec_digest(s, st, echo, lt, fc);
    if step.consumed <= 0 {
        (Seq::empty(), s, st)
    } else {
        let rest = spec_run(s.skip(step.consumed), step.next, echo, lt, fc);
        (opt_event_seq(step.event) + rest.0, rest.1, rest.2)
    }
}

#[via_fn]
proof fn spec_run_decreases(s: Seq<u8>, st: DigestState, echo: bool, lt: u8, fc: u8) {
    lemma_spec_digest_bounds(s, st, echo, lt, fc);
}

/// One executable digest pass: scan the buffer and decide, exactly as
/// [`spec_digest`] describes, what to emit, how many head bytes to drop,
/// and which state to continue in.
pub fn digest_once(buf: &[u8], state: DigestState, echo: bool, lt: u8, fc: u8) -> (r: (
    DigestResult,
    usize,
    DigestState,
))
    ensures
        result_view(r.0) == spec_digest(buf@, state, echo, lt, fc).event,
        r.1 as int == spec_digest(buf@, state, echo, lt, fc).consumed,
        r.2 == spec_digest(buf@, state, echo, lt, fc).next,
{
    let w = scan_nonterm(buf, lt, fc);
    if w >= buf.len() {
        return (DigestResult::Pending, buf.len(), state);
    }
    match state {
        DigestState::Idle => {
            if echo && buf.len() - w >= 2 && buf[w] == 65 && buf[w + 1] == 84 {
                let t = scan_term_from(buf, lt, fc, w);
                if t < buf.len() {
                    (DigestResult::Pending, t + 1, DigestState::ReceivingResponse)
                } else {
                    (DigestResult::Pending, w, DigestState::Idle)
                }
            } else if buf[w] == 43 {
                let t = scan_term_from(buf, lt, fc, w);
                if t < buf.len() {
                    let line = copy_range(buf, w, t);
                    (DigestResult::Urc(line), t + 1, DigestState::Idle)
                } else {
                    (DigestResult::Pending, w, DigestState::Idle)
                }
            } else {
                let t = scan_term_from(buf, lt, fc, w);
                if t < buf.len() {
                    (DigestResult::Pending, t + 1, DigestState::Idle)
                } else {
                    (DigestResult::Pending, w, DigestState::Idle)
                }
            }
        },
        DigestState::ReceivingResponse => {
            let ok_t: Vec<u8> = vec![79u8, 75u8];
            proof {
                assert(ok_t@ =~= ok_tok());
            }
            let iok = scan_tok_from(buf, ok_t.as_slice(), lt, fc, w);
            if iok < buf.len() {
                proof {
                    lemma_first_tok_from(buf@, ok_tok(), lt, fc, w as int);
                }
                let j = scan_trim_back(buf, lt, fc, w, iok);
                let body = copy_range(buf, w, j);
                return (DigestResult::Response(Ok(body)), iok + 3, DigestState::Idle);
            }
            let cme_h: Vec<u8> = vec![
                43u8,
                67u8,
                77u8,
                69u8,
                32u8,
                69u8,
                82u8,
                82u8,
                79u8,
                82u8,
                58u8,
            ];
            proof {
                assert(cme_h@ =~= cme_hdr());
            }
            let icme = scan_hdr_from(buf, cme_h.as_slice(), lt, fc, w);
            if icme < buf.len() {
                proof {
                    lemma_first_hdr_from(buf@, cme_hdr(), lt, fc, w as int);
                }
                let t = scan_term_from(buf, lt, fc, icme + 11);
                if t < buf.len() {
                    let code = parse_code(buf, icme + 11, t);
                    return (
                        DigestResult::Response(Err(InternalError::CmeError(code))),
                        t + 1,
                        DigestState::Idle,
                    );
                }
            }
            let cms_h: Vec<u8> = vec![
                43u8,
                67u8,
                77u8,
                83u8,
                32u8,
                69u8,
                82u8,
                82u8,
                79u8,
                82u8,
                58u8,
            ];
            proof {
                assert(cms_h@ =~= cms_hdr());
            }
            let icms = scan_hdr_from(buf, cms_h.as_slice(), lt, fc, w);
            if icms < buf.len() {
                proof {
                    lemma_first_hdr_from(buf@, cms_hdr(), lt, fc, w as int);
                }
                let t = scan_term_from(buf, lt, fc, icms + 11);
                if t < buf.len() {
                    let code = parse_code(buf, icms + 11, t);
                    return (
                        DigestResult::Response(Err(InternalError::CmsError(code))),
                        t + 1,
                        DigestState::Idle,
                    );
                }
            }
            let err_t: Vec<u8> = vec![69u8, 82u8, 82u8, 79u8, 82u8];
            proof {
                assert(err_t@ =~= error_tok());
            }
            let ierr = scan_tok_from(buf, err_t.as_slice(), lt, fc, w);
            if ierr < buf.len() {
                proof {
                    lemma_first_tok_from(buf@, error_tok(), lt, fc, w as int);
                }
                return (
                    DigestResult::Response(Err(InternalError::Error)),
                    ierr + 6,
                    DigestState::Idle,
                );
            }
            let ab_t: Vec<u8> = vec![65u8, 66u8, 79u8, 82u8, 84u8, 69u8, 68u8];
            proof {
                assert(ab_t@ =~= aborted_tok());
            }
            let iab = scan_tok_from(buf, ab_t.as_slice(), lt, fc, w);
            if iab < buf.len() {
                proof {
                    lemma_first_tok_from(buf@, aborted_tok(), lt, fc, w as int);
                }
                return (
                    DigestResult::Response(Err(InternalError::Aborted)),
                    iab + 8,
                    DigestState::Idle,
                );
            }
            let ipr = scan_prompt_from(buf, w);
            if ipr < buf.len() {
                return (DigestResult::Prompt(buf[ipr]), ipr + 1, DigestState::Idle);
            }
            (DigestResult::Pending, w, DigestState::ReceivingResponse)
        },
    }
}

/// Find where `s[from..to]` ends once trailing line delimiters are dropped.
fn scan_trim_back(s: &[u8], lt: u8, fc: u8, from: usize, to: usize) -> (r: usize)
    requires
        from <= to <= s@.len(),
    ensures
        from <= r <= to,
        trim_back(s@.subrange(from as int, to as int), lt, fc) == s@.subrange(
            from as int,
            r as int,
        ),
{
    let mut j: usize = to;
    while j > from && is_term_byte(s[j - 1], lt, fc)
        invariant
            from <= j <= to <= s@.len(),
            trim_back(s@.subrange(from as int, to as int), lt, fc) == trim_back(
                s@.subrange(from as int, j as int),
                lt,
                fc,
            ),
        decreases j,
    {
        proof {
            assert(s@.subrange(from as int, j as int).drop_last() =~= s@.subrange(
                from as int,
                j - 1,
            ));
        }
        j = j - 1;
    }
    j
}

} // verus!

verus! {

/// What a pluggable URC matcher decided about the buffer it was offered.
#[derive(Debug, PartialEq, Eq, Structural)]
pub enum UrcMatcherResult {
    /// The matcher declines; the default digester handles the bytes.
    NotHandled,
    /// The matcher claims the prefix but needs more bytes; nothing is
    /// consumed.
    Incomplete,
    /// The matcher extracted a URC: the given number of leading bytes
    /// form one frame.
    Complete(usize),
}

/// The view of a matcher verdict.
pub open spec fn urc_match_view(r: UrcMatcherResult) -> SpecUrcMatch {
    match r {
        UrcMatcherResult::NotHandled => SpecUrcMatch::NotHandled,
        UrcMatcherResult::Incomplete => SpecUrcMatch::Incomplete,
        UrcMatcherResult::Complete(n) => SpecUrcMatch::Complete(n as int),
    }
}

/// A matcher verdict at the specification level.
pub enum SpecUrcMatch {
    NotHandled,
    Incomplete,
    Complete(int),
}

/// A hook that recognizes non-standard URC framings — for example
/// length-value frames without a line terminator — before the default
/// digester runs.  Each implementation decides as a function of the
/// bytes it is shown, stated by its own `spec_process`.
pub trait UrcMatcher {
    /// What this matcher decides on the given bytes.
    spec fn spec_process(&self, buf: Seq<u8>) -> SpecUrcMatch;

    /// Offer the matcher the accumulated bytes.
    fn process(&mut self, buf: &[u8]) -> (r: UrcMatcherResult)
        ensures
            urc_match_view(r) == old(self).spec_process(buf@),
            r matches UrcMatcherResult::Complete(n) ==> 0 < n <= buf@.len(),
    ;
}

/// The default matcher: it declines everything, so the default line
/// digester handles all URCs.
pub struct DefaultUrcMatcher;

impl UrcMatcher for DefaultUrcMatcher {
    open spec fn spec_process(&self, buf: Seq<u8>) -> SpecUrcMatch {
        SpecUrcMatch::NotHandled
    }

    fn process(&mut self, buf: &[u8]) -> (r: UrcMatcherResult)
        ensures
            urc_match_view(r) == old(self).spec_process(buf@),
            r matches UrcMatcherResult::Complete(n) ==> 0 < n <= buf@.len(),
    {
        UrcMatcherResult::NotHandled
    }
}

/// One digest pass with a URC matcher in front: in the idle state, with
/// a `+`-led buffer, the matcher's verdict on the trimmed bytes decides;
/// everywhere else the pass is the default one.
pub open spec fn spec_digest_with(
    s: Seq<u8>,
    st: DigestState,
    echo: bool,
    lt: u8,
    fc: u8,
    m: SpecUrcMatch,
) -> SpecStep {
    let w = first_nonterm_from(s, lt, fc, 0);
    if w < s.len() && st == DigestState::Idle && s[w] == 43 {
        match m {
            SpecUrcMatch::Complete(n) => if 0 < n <= s.len() - w {
                SpecStep {
                    event: Some(SpecEvent::Urc(s.subrange(w, w + n))),
                    consumed: w + n,
                    next: DigestState::Idle,
                }
            } else {
                spec_digest(s, st, echo, lt, fc)
            },
            SpecUrcMatch::Incomplete => SpecStep {
                event: None,
                consumed: w,
                next: DigestState::Idle,
            },
            SpecUrcMatch::NotHandled => spec_digest(s, st, echo, lt, fc),
        }
    } else {
        spec_digest(s, st, echo, lt, fc)
    }
}

/// One executable digest pass with a URC matcher in front.
pub fn digest_once_with<M: UrcMatcher>(
    matcher: &mut M,
    buf: &[u8],
    state: DigestState,
    echo: bool,
    lt: u8,
    fc: u8,
) -> (r: (DigestResult, usize, DigestState))
    ensures
        ({
            let m = old(matcher).spec_process(
                buf@.skip(first_nonterm_from(buf@, lt, fc, 0)),
            );
            let step = spec_digest_with(buf@, state, echo, lt, fc, m);
            &&& result_view(r.0) == step.event
            &&& r.1 as int == step.consumed
            &&& r.2 == step.next
        }),
{
    let w = scan_nonterm(buf, lt, fc);
    if w < buf.len() && matches!(state, DigestState::Idle) && buf[w] == 43 {
        let tail = copy_range(buf, w, buf.len());
        proof {
            assert(tail@ =~= buf@.skip(w as int));
        }
        let verdict = matcher.process(tail.as_slice());
        match verdict {
            UrcMatcherResult::Complete(n) => {
                let line = copy_range(buf, w, w + n);
                return (DigestResult::Urc(line), w + n, DigestState::Idle);
            },
            UrcMatcherResult::Incomplete => {
                return (DigestResult::Pending, w, DigestState::Idle);
            },
            UrcMatcherResult::NotHandled => {},
        }
    }
    digest_once(buf, state, echo, lt, fc)
}

} // verus!
