//! The engine's laws: re-synchronization by reset, the command/response
//! round trip, and the disjointness of the two outgoing queues.

use vstd::prelude::*;

use crate::digest::{
    first_hdr_from, first_nonterm_from, first_prompt_from, first_term_from, first_tok_from,
    hdr_at, is_term, lemma_first_hdr_from, lemma_first_nonterm_from, lemma_first_term_from,
    lemma_first_tok_from, lemma_pin_first_nonterm, lemma_pin_first_term, lemma_pin_first_tok,
    lemma_spec_digest_bounds, ok_tok, opt_event_seq, spec_digest, spec_run, tok_at, trim_back,
    DigestState, SpecEvent,
};
use crate::ingress::{apply_com, apply_coms, resp_events, urc_events};
use crate::Command;

verus! {

/// `s` with its leading and trailing line delimiters removed.
pub open spec fn full_trim(s: Seq<u8>, lt: u8, fc: u8) -> Seq<u8> {
    trim_back(s.skip(first_nonterm_from(s, lt, fc, 0)), lt, fc)
}

/// A reset returns the ingress side to the state a freshly constructed
/// one is in: empty buffer, idle digester — whatever state it was in.
pub proof fn lemma_reset_resynchronizes(bytes: Seq<u8>, st: DigestState)
    ensures
        apply_com(Command::Reset, bytes, st) == (Seq::<u8>::empty(), DigestState::Idle),
{
}

/// Two consecutive reset control messages pending on the control queue
/// leave the ingress side exactly as one does — from any buffer and
/// state, and whatever commands follow them on the queue.
pub proof fn lemma_reset_idempotent(rest: Seq<Command>, bytes: Seq<u8>, st: DigestState)
    ensures
        apply_coms(seq![Command::Reset, Command::Reset] + rest, bytes, st) == apply_coms(
            seq![Command::Reset] + rest,
            bytes,
            st,
        ),
{
    reveal_with_fuel(apply_coms, 3);
    assert((seq![Command::Reset, Command::Reset] + rest)[0] == Command::Reset);
    assert((seq![Command::Reset] + rest)[0] == Command::Reset);
    assert((seq![Command::Reset, Command::Reset] + rest).drop_first() =~= seq![Command::Reset]
        + rest);
    assert((seq![Command::Reset] + rest).drop_first() =~= rest);
}

/// Every frame of a run lands on exactly one queue: the response
/// projection and the URC projection together account for each event
/// once, each URC line on the URC queue stems from a URC event, and each
/// frame on the response queue stems from a response or prompt event.
pub proof fn lemma_urc_response_disjoint(evs: Seq<SpecEvent>)
    ensures
        resp_events(evs).len() + urc_events(evs).len() == evs.len(),
        forall|k: int|
            0 <= k < urc_events(evs).len() ==> exists|i: int|
                0 <= i < evs.len() && #[trigger] evs[i] == SpecEvent::Urc(
                    #[trigger] urc_events(evs)[k],
                ),
        forall|k: int|
            0 <= k < resp_events(evs).len() ==> exists|i: int|
                0 <= i < evs.len() && (#[trigger] evs[i] == SpecEvent::Resp(
                    #[trigger] resp_events(evs)[k],
                ) || (evs[i] matches SpecEvent::Prompt(_) && resp_events(evs)[k]
                    == Ok::<Seq<u8>, crate::error::InternalError>(Seq::<u8>::empty()))),
    decreases evs.len(),
{
    if evs.len() > 0 {
        let rest = evs.drop_first();
        lemma_urc_response_disjoint(rest);
        assert forall|k: int| 0 <= k < urc_events(evs).len() implies exists|i: int|
            0 <= i < evs.len() && #[trigger] evs[i] == SpecEvent::Urc(
                #[trigger] urc_events(evs)[k],
            ) by {
            match evs[0] {
                SpecEvent::Urc(u) => {
                    if k == 0 {
                        assert(urc_events(evs)[0] == u);
                        assert(evs[0] == SpecEvent::Urc(urc_events(evs)[0]));
                    } else {
                        assert(urc_events(evs)[k] == urc_events(rest)[k - 1]);
                        let i0 = choose|i: int|
                            0 <= i < rest.len() && #[trigger] rest[i] == SpecEvent::Urc(
                                urc_events(rest)[k - 1],
                            );
                        assert(evs[i0 + 1] == rest[i0]);
                    }
                },
                _ => {
                    assert(urc_events(evs)[k] == urc_events(rest)[k]);
                    let i0 = choose|i: int|
                        0 <= i < rest.len() && #[trigger] rest[i] == SpecEvent::Urc(urc_events(rest)[k]);
                    assert(evs[i0 + 1] == rest[i0]);
                },
            }
        }
        assert forall|k: int| 0 <= k < resp_events(evs).len() implies exists|i: int|
            0 <= i < evs.len() && (#[trigger] evs[i] == SpecEvent::Resp(
                #[trigger] resp_events(evs)[k],
            ) || (evs[i] matches SpecEvent::Prompt(_) && resp_events(evs)[k]
                == Ok::<Seq<u8>, crate::error::InternalError>(Seq::<u8>::empty()))) by {
            match evs[0] {
                SpecEvent::Urc(_) => {
                    assert(resp_events(evs)[k] == resp_events(rest)[k]);
                    let i0 = choose|i: int|
                        0 <= i < rest.len() && (#[trigger] rest[i] == SpecEvent::Resp(resp_events(rest)[k])
                            || (rest[i] matches SpecEvent::Prompt(_) && resp_events(rest)[k] == Ok::<Seq<u8>, crate::error::InternalError>(
                            Seq::<u8>::empty(),
                        )));
                    assert(evs[i0 + 1] == rest[i0]);
                },
                SpecEvent::Prompt(_) => {
                    if k == 0 {
                        assert(resp_events(evs)[0] == Ok::<Seq<u8>, crate::error::InternalError>(Seq::<u8>::empty()));
                    } else {
                        assert(resp_events(evs)[k] == resp_events(rest)[k - 1]);
                        let i0 = choose|i: int|
                            0 <= i < rest.len() && (#[trigger] rest[i] == SpecEvent::Resp(
                                resp_events(rest)[k - 1],
                            ) || (rest[i] matches SpecEvent::Prompt(_) && resp_events(rest)[k - 1]
                                == Ok::<Seq<u8>, crate::error::InternalError>(Seq::<u8>::empty())));
                        assert(evs[i0 + 1] == rest[i0]);
                    }
                },
                SpecEvent::Resp(_) => {
                    if k == 0 {
                        assert(evs[0] == SpecEvent::Resp(resp_events(evs)[0]));
                    } else {
                        assert(resp_events(evs)[k] == resp_events(rest)[k - 1]);
                        let i0 = choose|i: int|
                            0 <= i < rest.len() && (#[trigger] rest[i] == SpecEvent::Resp(
                                resp_events(rest)[k - 1],
                            ) || (rest[i] matches SpecEvent::Prompt(_) && resp_events(rest)[k - 1]
                                == Ok::<Seq<u8>, crate::error::InternalError>(Seq::<u8>::empty())));
                        assert(evs[i0 + 1] == rest[i0]);
                    }
                },
            }
        }
    }
}

/// The wire image of one command interaction: the echoed command line,
/// the response body, and the `OK` line.
pub open spec fn ok_wire(cmd: Seq<u8>, body: Seq<u8>, lt: u8) -> Seq<u8> {
    cmd + seq![lt] + body + ok_tok() + seq![lt]
}

/// The conditions under which [`lemma_round_trip`] speaks: the command
/// line is an `AT`-prefixed line without interior delimiters, the body is
/// empty or ends in a delimiter (each body line carries its terminator),
/// the body contains no line-anchored `OK` token of its own, and the two
/// token bytes are not themselves configured as delimiters.
pub open spec fn round_trip_pre(cmd: Seq<u8>, body: Seq<u8>, lt: u8, fc: u8) -> bool {
    &&& cmd.len() >= 2
    &&& cmd[0] == 65
    &&& cmd[1] == 84
    &&& (forall|i: int| 0 <= i < cmd.len() ==> !is_term(cmd[i], lt, fc))
    &&& (body.len() > 0 ==> is_term(body[body.len() - 1], lt, fc))
    &&& (forall|i: int|
        0 <= i < body.len() ==> !tok_at(body + ok_tok() + seq![lt], ok_tok(), lt, fc, i))
    &&& !is_term(79, lt, fc)
    &&& !is_term(75, lt, fc)
}

/// Round trip: a command `AT…` answered on the wire by its echo, a body
/// and an `OK` line digests, from idle, to exactly one successful
/// response whose bytes are the body trimmed of outer delimiters — with
/// nothing retained and the digester idle again.
pub proof fn lemma_round_trip(cmd: Seq<u8>, body: Seq<u8>, lt: u8, fc: u8)
    requires
        round_trip_pre(cmd, body, lt, fc),
    ensures
        spec_run(ok_wire(cmd, body, lt), DigestState::Idle, true, lt, fc).0 == seq![
            SpecEvent::Resp(Ok(full_trim(body, lt, fc))),
        ],
        spec_run(ok_wire(cmd, body, lt), DigestState::Idle, true, lt, fc).1 == Seq::<u8>::empty(),
        spec_run(ok_wire(cmd, body, lt), DigestState::Idle, true, lt, fc).2 == DigestState::Idle,
{
    let wire = ok_wire(cmd, body, lt);
    let r2 = body + ok_tok() + seq![lt];
    assert(wire.len() == cmd.len() + 1 + r2.len());

    // First pass: the echo line is recognized and swallowed.
    assert(wire[0] == cmd[0]);
    lemma_pin_first_nonterm(wire, lt, fc, 0, 0);
    assert(forall|j: int| 0 <= j < cmd.len() ==> wire[j] == cmd[j]);
    assert(wire[cmd.len() as int] == lt);
    lemma_pin_first_term(wire, lt, fc, 0, cmd.len() as int);
    let step1 = spec_digest(wire, DigestState::Idle, true, lt, fc);
    assert(step1.consumed == cmd.len() + 1int);
    assert(step1.next == DigestState::ReceivingResponse);
    assert(wire.skip(cmd.len() + 1int) =~= r2);

    // Second pass: the `OK` token ends the response.
    let kk = first_nonterm_from(body, lt, fc, 0);
    lemma_first_nonterm_from(body, lt, fc, 0);
    assert(forall|j: int| 0 <= j < body.len() ==> r2[j] == body[j]);
    assert(r2[body.len() as int] == 79);
    assert(r2[body.len() + 1int] == 75);
    assert(r2[body.len() + 2int] == lt);
    if kk < body.len() {
        lemma_pin_first_nonterm(r2, lt, fc, 0, kk);
    } else {
        lemma_pin_first_nonterm(r2, lt, fc, 0, body.len() as int);
    }
    let w2 = first_nonterm_from(r2, lt, fc, 0);
    assert(w2 == kk);
    assert(tok_at(r2, ok_tok(), lt, fc, body.len() as int)) by {
        assert(r2.subrange(body.len() as int, body.len() + 2int) =~= ok_tok());
    }
    lemma_pin_first_tok(r2, ok_tok(), lt, fc, w2, body.len() as int);
    let step2 = spec_digest(r2, DigestState::ReceivingResponse, true, lt, fc);
    assert(step2.consumed == body.len() + 3int);
    assert(step2.next == DigestState::Idle);
    assert(r2.subrange(w2, body.len() as int) =~= body.skip(kk));
    assert(step2.event == Some(SpecEvent::Resp(Ok(full_trim(body, lt, fc)))));

    // Third pass: nothing is left.
    assert(r2.skip(body.len() + 3int) =~= Seq::<u8>::empty());
    let run3 = spec_run(Seq::<u8>::empty(), DigestState::Idle, true, lt, fc);
    assert(spec_digest(Seq::<u8>::empty(), DigestState::Idle, true, lt, fc).consumed == 0);
    assert(run3.0 == Seq::<SpecEvent>::empty());
    assert(run3.1 == Seq::<u8>::empty());
    assert(run3.2 == DigestState::Idle);

    // Stitch the three passes together.
    let ev = SpecEvent::Resp(Ok(full_trim(body, lt, fc)));
    let run2 = spec_run(r2, DigestState::ReceivingResponse, true, lt, fc);
    assert(r2.skip(step2.consumed) == Seq::<u8>::empty());
    assert(run2.0 == opt_event_seq(step2.event) + run3.0);
    assert(run2.0 =~= seq![ev]);
    assert(run2.1 == Seq::<u8>::empty());
    assert(run2.2 == DigestState::Idle);
    let run1 = spec_run(wire, DigestState::Idle, true, lt, fc);
    assert(wire.skip(step1.consumed) == r2);
    assert(run1.0 == opt_event_seq(step1.event) + run2.0);
    assert(run1.0 =~= seq![ev]);
}

/// Timeout synchronization: after a timeout the client sends a reset;
/// once the ingress has applied it, the next correctly-formed command
/// interaction digests to exactly its one successful response, whatever
/// bytes and state the timeout left behind.
pub proof fn lemma_timeout_resync(
    stale: Seq<u8>,
    st: DigestState,
    cmd: Seq<u8>,
    body: Seq<u8>,
    lt: u8,
    fc: u8,
)
    requires
        round_trip_pre(cmd, body, lt, fc),
    ensures
        ({
            let cleaned = apply_com(Command::Reset, stale, st);
            spec_run(cleaned.0 + ok_wire(cmd, body, lt), cleaned.1, true, lt, fc).0 == seq![
                SpecEvent::Resp(Ok(full_trim(body, lt, fc))),
            ]
        }),
{
    let cleaned = apply_com(Command::Reset, stale, st);
    assert(cleaned.0 + ok_wire(cmd, body, lt) =~= ok_wire(cmd, body, lt));
    lemma_round_trip(cmd, body, lt, fc);
}

} // verus!

verus! {

// --- chunk invariance: stability of one pass under extension ---

/// A non-delimiter found inside `s` is still the first one when more
/// bytes are appended.
proof fn lemma_first_nonterm_extends(s: Seq<u8>, e: Seq<u8>, lt: u8, fc: u8, i: int)
    requires
        0 <= i <= s.len(),
        first_nonterm_from(s, lt, fc, i) < s.len(),
    ensures
        first_nonterm_from(s + e, lt, fc, i) == first_nonterm_from(s, lt, fc, i),
    decreases s.len() - i,
{
    assert((s + e)[i] == s[i]);
    if is_term(s[i], lt, fc) {
        lemma_first_nonterm_extends(s, e, lt, fc, i + 1);
    }
}

/// A delimiter found inside `s` is still the first one when more bytes
/// are appended.
proof fn lemma_first_term_extends(s: Seq<u8>, e: Seq<u8>, lt: u8, fc: u8, i: int)
    requires
        0 <= i <= s.len(),
        first_term_from(s, lt, fc, i) < s.len(),
    ensures
        first_term_from(s + e, lt, fc, i) == first_term_from(s, lt, fc, i),
    decreases s.len() - i,
{
    assert((s + e)[i] == s[i]);
    if !is_term(s[i], lt, fc) {
        lemma_first_term_extends(s, e, lt, fc, i + 1);
    }
}

/// A token standing wholly inside `s` stands the same way after an
/// extension, and conversely for positions whose token and delimiter fit
/// inside `s`.
proof fn lemma_tok_at_extends(s: Seq<u8>, e: Seq<u8>, tok: Seq<u8>, lt: u8, fc: u8, j: int)
    requires
        0 <= j,
        j + tok.len() + 1 <= s.len(),
    ensures
        tok_at(s + e, tok, lt, fc, j) == tok_at(s, tok, lt, fc, j),
{
    assert((s + e).subrange(j, j + tok.len()) =~= s.subrange(j, j + tok.len()));
    assert((s + e)[j + tok.len()] == s[j + tok.len()]);
    if j > 0 {
        assert((s + e)[j - 1] == s[j - 1]);
    }
}

/// A delimiter-terminated token found inside `s` is still the first one
/// when more bytes are appended.
proof fn lemma_first_tok_extends(s: Seq<u8>, e: Seq<u8>, tok: Seq<u8>, lt: u8, fc: u8, i: int)
    requires
        0 <= i <= s.len(),
        first_tok_from(s, tok, lt, fc, i) < s.len(),
    ensures
        first_tok_from(s + e, tok, lt, fc, i) == first_tok_from(s, tok, lt, fc, i),
    decreases s.len() - i,
{
    let r = first_tok_from(s, tok, lt, fc, i);
    lemma_first_tok_from(s, tok, lt, fc, i);
    if r == i {
        lemma_tok_at_extends(s, e, tok, lt, fc, i);
    } else {
        assert(!tok_at(s, tok, lt, fc, i));
        if i + tok.len() + 1 <= s.len() {
            lemma_tok_at_extends(s, e, tok, lt, fc, i);
        } else {
            // The token cannot even fit before `r` within `s`, yet `r`
            // carries a full token inside `s`: impossible, since `i < r`.
            assert(tok_at(s, tok, lt, fc, r));
            assert(r + tok.len() + 1 <= s.len());
            assert(false);
        }
        lemma_first_tok_extends(s, e, tok, lt, fc, i + 1);
    }
}

} // verus!

verus! {

// --- chunk invariance: shifting a pass across a delimiter-only prefix ---

/// Scanning for a non-delimiter walks through a stretch of delimiters.
proof fn lemma_fnt_skip_terms(s: Seq<u8>, lt: u8, fc: u8, i: int, k: int)
    requires
        0 <= i <= k <= s.len(),
        forall|j: int| i <= j < k ==> is_term(s[j], lt, fc),
    ensures
        first_nonterm_from(s, lt, fc, i) == first_nonterm_from(s, lt, fc, k),
    decreases k - i,
{
    if i < k {
        lemma_fnt_skip_terms(s, lt, fc, i + 1, k);
    }
}

/// The non-delimiter scan over a concatenation, at positions inside the
/// second part, is the shifted scan over that part.
proof fn lemma_fnt_shift(p: Seq<u8>, u: Seq<u8>, lt: u8, fc: u8, i: int)
    requires
        0 <= i <= u.len(),
    ensures
        first_nonterm_from(p + u, lt, fc, p.len() + i) == p.len() + first_nonterm_from(
            u,
            lt,
            fc,
            i,
        ),
    decreases u.len() - i,
{
    if i < u.len() {
        assert((p + u)[p.len() + i] == u[i]);
        if is_term(u[i], lt, fc) {
            lemma_fnt_shift(p, u, lt, fc, i + 1);
        }
    }
}

/// The delimiter scan over a concatenation, at positions inside the
/// second part, is the shifted scan over that part.
proof fn lemma_ft_shift(p: Seq<u8>, u: Seq<u8>, lt: u8, fc: u8, i: int)
    requires
        0 <= i <= u.len(),
    ensures
        first_term_from(p + u, lt, fc, p.len() + i) == p.len() + first_term_from(u, lt, fc, i),
    decreases u.len() - i,
{
    if i < u.len() {
        assert((p + u)[p.len() + i] == u[i]);
        if !is_term(u[i], lt, fc) {
            lemma_ft_shift(p, u, lt, fc, i + 1);
        }
    }
}

/// The prompt scan over a concatenation, at positions inside the second
/// part, is the shifted scan over that part.
proof fn lemma_fp_shift(p: Seq<u8>, u: Seq<u8>, i: int)
    requires
        0 <= i <= u.len(),
    ensures
        first_prompt_from(p + u, p.len() + i) == p.len() + first_prompt_from(u, i),
    decreases u.len() - i,
{
    if i < u.len() {
        assert((p + u)[p.len() + i] == u[i]);
        if !(u[i] == 62 || u[i] == 64) {
            lemma_fp_shift(p, u, i + 1);
        }
    }
}

/// A token stands at a position inside the second part of a
/// concatenation exactly when it stands at the shifted position of that
/// part — provided the first part, when it is non-empty, ends in a
/// delimiter, so that anchoring at the seam agrees.
proof fn lemma_tok_at_shift(p: Seq<u8>, u: Seq<u8>, tok: Seq<u8>, lt: u8, fc: u8, j: int)
    requires
        0 <= j <= u.len(),
        p.len() == 0 || is_term(p[p.len() - 1], lt, fc),
    ensures
        tok_at(p + u, tok, lt, fc, p.len() + j) == tok_at(u, tok, lt, fc, j),
{
    if j + tok.len() + 1 <= u.len() {
        assert((p + u).subrange(p.len() + j, p.len() + j + tok.len()) =~= u.subrange(
            j,
            j + tok.len(),
        ));
        assert((p + u)[p.len() + j + tok.len()] == u[j + tok.len()]);
        if j > 0 {
            assert((p + u)[p.len() + j - 1] == u[j - 1]);
        }
    }
}

/// The token scan over a concatenation, at positions inside the second
/// part, is the shifted scan over that part, under the same seam
/// condition as [`lemma_tok_at_shift`].
proof fn lemma_ftok_shift(p: Seq<u8>, u: Seq<u8>, tok: Seq<u8>, lt: u8, fc: u8, i: int)
    requires
        0 <= i <= u.len(),
        p.len() == 0 || is_term(p[p.len() - 1], lt, fc),
    ensures
        first_tok_from(p + u, tok, lt, fc, p.len() + i) == p.len() + first_tok_from(
            u,
            tok,
            lt,
            fc,
            i,
        ),
    decreases u.len() - i,
{
    if i < u.len() {
        lemma_tok_at_shift(p, u, tok, lt, fc, i);
        if !tok_at(u, tok, lt, fc, i) {
            lemma_ftok_shift(p, u, tok, lt, fc, i + 1);
        }
    }
}

/// A header stands at a position inside the second part of a
/// concatenation exactly when it stands at the shifted position of that
/// part, under the same seam condition.
proof fn lemma_hdr_at_shift(p: Seq<u8>, u: Seq<u8>, hdr: Seq<u8>, lt: u8, fc: u8, j: int)
    requires
        0 <= j <= u.len(),
        p.len() == 0 || is_term(p[p.len() - 1], lt, fc),
    ensures
        hdr_at(p + u, hdr, lt, fc, p.len() + j) == hdr_at(u, hdr, lt, fc, j),
{
    if j + hdr.len() <= u.len() {
        assert((p + u).subrange(p.len() + j, p.len() + j + hdr.len()) =~= u.subrange(
            j,
            j + hdr.len(),
        ));
        if j > 0 {
            assert((p + u)[p.len() + j - 1] == u[j - 1]);
        }
    }
}

/// The header scan over a concatenation, at positions inside the second
/// part, is the shifted scan over that part, under the same seam
/// condition.
proof fn lemma_fhdr_shift(p: Seq<u8>, u: Seq<u8>, hdr: Seq<u8>, lt: u8, fc: u8, i: int)
    requires
        0 <= i <= u.len(),
        p.len() == 0 || is_term(p[p.len() - 1], lt, fc),
    ensures
        first_hdr_from(p + u, hdr, lt, fc, p.len() + i) == p.len() + first_hdr_from(
            u,
            hdr,
            lt,
            fc,
            i,
        ),
    decreases u.len() - i,
{
    if i < u.len() {
        lemma_hdr_at_shift(p, u, hdr, lt, fc, i);
        if !hdr_at(u, hdr, lt, fc, i) {
            lemma_fhdr_shift(p, u, hdr, lt, fc, i + 1);
        }
    }
}

/// The saturating decimal code read inside the second part of a
/// concatenation is the shifted read over that part.
proof fn lemma_code_val_shift(p: Seq<u8>, u: Seq<u8>, a: int, b: int)
    requires
        0 <= a,
        b <= u.len(),
    ensures
        crate::digest::code_val(p + u, p.len() + a, p.len() + b) == crate::digest::code_val(
            u,
            a,
            b,
        ),
    decreases b - a,
{
    if b > a {
        assert((p + u)[p.len() + b - 1] == u[b - 1]);
        lemma_code_val_shift(p, u, a, b - 1);
    }
}

} // verus!

verus! {

// --- chunk invariance: a delimiter-only prefix does not change a pass ---

/// One digest pass over a buffer with a delimiter-only prefix makes the
/// same decision as over the rest alone; only the consumed count grows
/// by the prefix length.
#[verifier::rlimit(100)]
proof fn lemma_digest_shift(
    p: Seq<u8>,
    u: Seq<u8>,
    st: DigestState,
    echo: bool,
    lt: u8,
    fc: u8,
)
    requires
        forall|j: int| 0 <= j < p.len() ==> is_term(p[j], lt, fc),
    ensures
        spec_digest(p + u, st, echo, lt, fc).event == spec_digest(u, st, echo, lt, fc).event,
        spec_digest(p + u, st, echo, lt, fc).consumed == p.len() + spec_digest(
            u,
            st,
            echo,
            lt,
            fc,
        ).consumed,
        spec_digest(p + u, st, echo, lt, fc).next == spec_digest(u, st, echo, lt, fc).next,
{
    let s = p + u;
    assert(forall|j: int| 0 <= j < p.len() ==> is_term(s[j], lt, fc));
    lemma_fnt_skip_terms(s, lt, fc, 0, p.len() as int);
    lemma_fnt_shift(p, u, lt, fc, 0);
    let wu = first_nonterm_from(u, lt, fc, 0);
    let w = first_nonterm_from(s, lt, fc, 0);
    assert(w == p.len() + wu);
    lemma_first_nonterm_from(u, lt, fc, 0);
    if wu >= u.len() {
        assert(w >= s.len());
    } else {
        assert(forall|k: int| 0 <= k < u.len() ==> s[p.len() + k] == u[k]);
        assert(s[w] == u[wu]);
        assert(w + 1 < s.len() ==> s[w + 1] == u[wu + 1]);
        let seam = p.len() == 0 || is_term(p[p.len() - 1], lt, fc);
        assert(seam);
        match st {
            DigestState::Idle => {
                lemma_ft_shift(p, u, lt, fc, wu);
                lemma_first_term_from(u, lt, fc, wu);
                assert(w + 2 <= s.len() <==> wu + 2 <= u.len());
                if echo && wu + 2 <= u.len() && u[wu] == 65 && u[wu + 1] == 84 {
                } else if u[wu] == 43 {
                    let t = first_term_from(u, lt, fc, wu);
                    if t < u.len() {
                        assert(s.subrange(w, p.len() + t) =~= u.subrange(wu, t));
                    }
                } else {
                }
            },
            DigestState::ReceivingResponse => {
                lemma_ftok_shift(p, u, ok_tok(), lt, fc, wu);
                lemma_fhdr_shift(p, u, crate::digest::cme_hdr(), lt, fc, wu);
                lemma_fhdr_shift(p, u, crate::digest::cms_hdr(), lt, fc, wu);
                lemma_ftok_shift(p, u, crate::digest::error_tok(), lt, fc, wu);
                lemma_ftok_shift(p, u, crate::digest::aborted_tok(), lt, fc, wu);
                lemma_fp_shift(p, u, wu);
                let iok = first_tok_from(u, ok_tok(), lt, fc, wu);
                let icme = first_hdr_from(u, crate::digest::cme_hdr(), lt, fc, wu);
                let icms = first_hdr_from(u, crate::digest::cms_hdr(), lt, fc, wu);
                lemma_first_tok_from(u, ok_tok(), lt, fc, wu);
                lemma_first_hdr_from(u, crate::digest::cme_hdr(), lt, fc, wu);
                lemma_first_hdr_from(u, crate::digest::cms_hdr(), lt, fc, wu);
                crate::digest::lemma_first_prompt_from(u, wu);
                assert(first_prompt_from(u, wu) < u.len() ==> s[p.len() + first_prompt_from(
                    u,
                    wu,
                )] == u[first_prompt_from(u, wu)]);
                if iok < u.len() {
                    assert(s.subrange(w, p.len() + iok) =~= u.subrange(wu, iok));
                } else if icme < u.len() {
                    lemma_ft_shift(p, u, lt, fc, icme + 11);
                    let t = first_term_from(u, lt, fc, icme + 11);
                    if t < u.len() {
                        lemma_code_val_shift(p, u, icme + 11, t);
                    }
                    if icms < u.len() {
                        lemma_ft_shift(p, u, lt, fc, icms + 11);
                        let t2 = first_term_from(u, lt, fc, icms + 11);
                        if t2 < u.len() {
                            lemma_code_val_shift(p, u, icms + 11, t2);
                        }
                    }
                } else if icms < u.len() {
                    lemma_ft_shift(p, u, lt, fc, icms + 11);
                    let t2 = first_term_from(u, lt, fc, icms + 11);
                    if t2 < u.len() {
                        lemma_code_val_shift(p, u, icms + 11, t2);
                    }
                } else {
                }
            },
        }
    }
}

/// Digesting a buffer with a delimiter-only prefix to quiescence emits
/// the same events, retains the same bytes and ends in the same state as
/// digesting the rest alone.
#[verifier::rlimit(100)]
proof fn lemma_run_shift(p: Seq<u8>, u: Seq<u8>, st: DigestState, echo: bool, lt: u8, fc: u8)
    requires
        forall|j: int| 0 <= j < p.len() ==> is_term(p[j], lt, fc),
    ensures
        spec_run(p + u, st, echo, lt, fc) == spec_run(u, st, echo, lt, fc),
{
    let s = p + u;
    lemma_digest_shift(p, u, st, echo, lt, fc);
    let a = spec_digest(s, st, echo, lt, fc);
    let b = spec_digest(u, st, echo, lt, fc);
    lemma_spec_digest_bounds(u, st, echo, lt, fc);
    lemma_spec_digest_bounds(s, st, echo, lt, fc);
    if b.consumed > 0 {
        assert(s.skip(a.consumed) =~= u.skip(b.consumed));
        assert(spec_run(s, st, echo, lt, fc).0 == opt_event_seq(a.event) + spec_run(
            s.skip(a.consumed),
            a.next,
            echo,
            lt,
            fc,
        ).0);
    } else {
        // The rest alone is quiescent; the prefix is consumed in one
        // trim-only pass, if it is there at all.
        assert(b.event is None);
        assert(b.next == st);
        if p.len() == 0 {
            assert(s =~= u);
        } else {
            assert(a.consumed == p.len());
            assert(s.skip(a.consumed) =~= u);
            assert(spec_run(s, st, echo, lt, fc).0 == opt_event_seq(a.event) + spec_run(
                u,
                st,
                echo,
                lt,
                fc,
            ).0);
            assert(spec_run(s, st, echo, lt, fc).0 =~= spec_run(u, st, echo, lt, fc).0);
        }
    }
}

} // verus!

verus! {

// --- chunk invariance: the theorem ---

/// A pass that got past the delimiter trim and either saw a complete
/// idle-state line or found the `OK` token decides the same way however
/// the buffer is later extended.
proof fn lemma_digest_step_extends(
    s: Seq<u8>,
    e: Seq<u8>,
    st: DigestState,
    echo: bool,
    lt: u8,
    fc: u8,
)
    requires
        first_nonterm_from(s, lt, fc, 0) < s.len(),
        match st {
            DigestState::Idle => first_term_from(s, lt, fc, first_nonterm_from(s, lt, fc, 0))
                < s.len(),
            DigestState::ReceivingResponse => first_tok_from(
                s,
                ok_tok(),
                lt,
                fc,
                first_nonterm_from(s, lt, fc, 0),
            ) < s.len(),
        },
    ensures
        spec_digest(s + e, st, echo, lt, fc) == spec_digest(s, st, echo, lt, fc),
{
    let w = first_nonterm_from(s, lt, fc, 0);
    lemma_first_nonterm_from(s, lt, fc, 0);
    lemma_first_nonterm_extends(s, e, lt, fc, 0);
    assert(forall|k: int| 0 <= k < s.len() ==> (s + e)[k] == s[k]);
    match st {
        DigestState::Idle => {
            let t = first_term_from(s, lt, fc, w);
            lemma_first_term_from(s, lt, fc, w);
            lemma_first_term_extends(s, e, lt, fc, w);
            assert(s.len() >= w + 2);
            if !(echo && s[w] == 65 && w + 1 < s.len() && s[w + 1] == 84) {
            }
            if s[w] == 43 {
                assert((s + e).subrange(w, t) =~= s.subrange(w, t));
            }
        },
        DigestState::ReceivingResponse => {
            let iok = first_tok_from(s, ok_tok(), lt, fc, w);
            lemma_first_tok_from(s, ok_tok(), lt, fc, w);
            lemma_first_tok_extends(s, e, ok_tok(), lt, fc, w);
            assert((s + e).subrange(w, iok) =~= s.subrange(w, iok));
        },
    }
}

/// Whether every event of a run is an unsolicited line or a successful
/// response.  Under token priority, an `OK` arriving later outranks an
/// earlier error token, so only runs without error and prompt events are
/// invariant under re-chunking.
pub open spec fn good_events(evs: Seq<SpecEvent>) -> bool {
    forall|i: int|
        0 <= i < evs.len() ==> ((#[trigger] evs[i]) matches SpecEvent::Urc(_) || evs[i] matches
            SpecEvent::Resp(Ok(_)))
}

/// Chunk invariance: when a chunk of the stream digests to unsolicited
/// lines and successful responses only, digesting it first and then the
/// rest — with whatever the chunk retained carried over — emits exactly
/// the events of digesting the concatenation, retains the same bytes,
/// and ends in the same state.
#[verifier::rlimit(100)]
pub proof fn lemma_chunk_invariance(
    s: Seq<u8>,
    e: Seq<u8>,
    st: DigestState,
    echo: bool,
    lt: u8,
    fc: u8,
)
    requires
        good_events(spec_run(s, st, echo, lt, fc).0),
    ensures
        ({
            let r1 = spec_run(s, st, echo, lt, fc);
            let r2 = spec_run(r1.1 + e, r1.2, echo, lt, fc);
            let rw = spec_run(s + e, st, echo, lt, fc);
            &&& rw.0 == r1.0 + r2.0
            &&& rw.1 == r2.1
            &&& rw.2 == r2.2
        }),
    decreases s.len(),
{
    let step = spec_digest(s, st, echo, lt, fc);
    lemma_spec_digest_bounds(s, st, echo, lt, fc);
    let w = first_nonterm_from(s, lt, fc, 0);
    lemma_first_nonterm_from(s, lt, fc, 0);
    let r1 = spec_run(s, st, echo, lt, fc);
    if step.consumed <= 0 {
        assert(r1.1 == s && r1.2 == st);
        assert(r1.0 + spec_run(s + e, st, echo, lt, fc).0 =~= spec_run(
            s + e,
            st,
            echo,
            lt,
            fc,
        ).0);
    } else if w >= s.len() {
        // This chunk is delimiters only: one pass swallows it whole.
        assert(forall|j: int| 0 <= j < s.len() ==> is_term(s[j], lt, fc));
        lemma_run_shift(s, e, st, echo, lt, fc);
        assert(step.event is None && step.consumed == s.len());
        let tail0 = s.skip(step.consumed);
        assert(tail0 =~= Seq::<u8>::empty());
        assert(spec_digest(Seq::<u8>::empty(), st, echo, lt, fc).consumed == 0);
        assert(spec_run(Seq::<u8>::empty(), st, echo, lt, fc).0 == Seq::<SpecEvent>::empty());
        assert(r1.0 == opt_event_seq(step.event) + spec_run(tail0, step.next, echo, lt, fc).0);
        assert(step.next == st);
        assert(r1.0 =~= Seq::<SpecEvent>::empty());
        assert(r1.1 =~= Seq::<u8>::empty());
        assert(r1.2 == st);
        assert(r1.1 + e =~= e);
        assert(r1.0 + spec_run(e, st, echo, lt, fc).0 =~= spec_run(e, st, echo, lt, fc).0);
    } else if step.event is None && step.consumed == w && step.next == st {
        // A trim-only pass: drop the leading delimiters and continue.
        let tail = s.skip(w);
        assert(r1.0 == opt_event_seq(step.event) + spec_run(tail, st, echo, lt, fc).0);
        assert(r1.0 =~= spec_run(tail, st, echo, lt, fc).0);
        lemma_chunk_invariance(tail, e, st, echo, lt, fc);
        assert(s + e =~= s.take(w) + (tail + e));
        assert(forall|j: int| 0 <= j < w ==> is_term(s.take(w)[j], lt, fc));
        lemma_run_shift(s.take(w), tail + e, st, echo, lt, fc);
        assert(spec_run(s + e, st, echo, lt, fc) == spec_run(tail + e, st, echo, lt, fc));
    } else {
        // A progressing pass: establish that it is extension-stable.
        assert(r1.0 == opt_event_seq(step.event) + spec_run(
            s.skip(step.consumed),
            step.next,
            echo,
            lt,
            fc,
        ).0);
        match st {
            DigestState::Idle => {
                assert(first_term_from(s, lt, fc, w) < s.len()) by {
                    if first_term_from(s, lt, fc, w) >= s.len() {
                        assert(step.event is None && step.consumed == w && step.next == st);
                    }
                }
            },
            DigestState::ReceivingResponse => {
                assert(step.event is Some);
                assert(r1.0[0] == step.event->Some_0);
                assert(good_events(r1.0));
                assert((r1.0[0] matches SpecEvent::Urc(_) || r1.0[0] matches SpecEvent::Resp(
                    Ok(_),
                )));
                assert(first_tok_from(s, ok_tok(), lt, fc, w) < s.len());
            },
        }
        lemma_digest_step_extends(s, e, st, echo, lt, fc);
        let c = step.consumed;
        let tail = s.skip(c);
        let trun = spec_run(tail, step.next, echo, lt, fc);
        assert(good_events(trun.0)) by {
            assert(forall|i: int|
                0 <= i < trun.0.len() ==> trun.0[i] == r1.0[i + opt_event_seq(
                    step.event,
                ).len()]);
        }
        lemma_chunk_invariance(tail, e, step.next, echo, lt, fc);
        assert((s + e).skip(c) =~= tail + e);
        let r2 = spec_run(trun.1 + e, trun.2, echo, lt, fc);
        assert(spec_run(s + e, st, echo, lt, fc).0 == opt_event_seq(step.event) + spec_run(
            tail + e,
            step.next,
            echo,
            lt,
            fc,
        ).0);
        assert(opt_event_seq(step.event) + (trun.0 + r2.0) =~= (opt_event_seq(step.event)
            + trun.0) + r2.0);
        assert(r1.1 == trun.1 && r1.2 == trun.2);
    }
}

} // verus!

verus! {

// --- chunk invariance: arbitrary partitions ---

/// What a run retains is quiescent: digesting it again makes no
/// progress until more bytes arrive.
proof fn lemma_run_leftover_quiescent(s: Seq<u8>, st: DigestState, echo: bool, lt: u8, fc: u8)
    ensures
        spec_digest(
            spec_run(s, st, echo, lt, fc).1,
            spec_run(s, st, echo, lt, fc).2,
            echo,
            lt,
            fc,
        ).consumed == 0,
    decreases s.len(),
{
    let step = spec_digest(s, st, echo, lt, fc);
    lemma_spec_digest_bounds(s, st, echo, lt, fc);
    if step.consumed > 0 {
        lemma_run_leftover_quiescent(s.skip(step.consumed), step.next, echo, lt, fc);
    }
}

/// One byte stream out of a list of chunks.
pub open spec fn concat_chunks(chunks: Seq<Seq<u8>>) -> Seq<u8>
    decreases chunks.len(),
{
    if chunks.len() == 0 {
        Seq::empty()
    } else {
        chunks[0] + concat_chunks(chunks.drop_first())
    }
}

/// Feeding chunks one by one: append each chunk to the retained bytes
/// and digest to quiescence, collecting all emitted events.
pub open spec fn spec_feed(chunks: Seq<Seq<u8>>, buf: Seq<u8>, st: DigestState, echo: bool, lt: u8, fc: u8) -> (
    Seq<SpecEvent>,
    Seq<u8>,
    DigestState,
)
    decreases chunks.len(),
{
    if chunks.len() == 0 {
        (Seq::empty(), buf, st)
    } else {
        let r = spec_run(buf + chunks[0], st, echo, lt, fc);
        let rest = spec_feed(chunks.drop_first(), r.1, r.2, echo, lt, fc);
        (r.0 + rest.0, rest.1, rest.2)
    }
}

/// Chunk invariance over a whole partition: however a stream whose
/// events are unsolicited lines and successful responses is cut into
/// chunks, feeding the chunks one by one emits exactly the events of
/// digesting the whole stream, retains the same bytes and ends in the
/// same state.  It is stated from any quiescent starting buffer, the
/// fresh empty one included.
pub proof fn lemma_chunk_invariance_feed(
    chunks: Seq<Seq<u8>>,
    buf: Seq<u8>,
    st: DigestState,
    echo: bool,
    lt: u8,
    fc: u8,
)
    requires
        spec_digest(buf, st, echo, lt, fc).consumed == 0,
        good_events(spec_feed(chunks, buf, st, echo, lt, fc).0),
    ensures
        spec_feed(chunks, buf, st, echo, lt, fc) == spec_run(
            buf + concat_chunks(chunks),
            st,
            echo,
            lt,
            fc,
        ),
    decreases chunks.len(),
{
    lemma_spec_digest_bounds(buf, st, echo, lt, fc);
    if chunks.len() == 0 {
        assert(buf + concat_chunks(chunks) =~= buf);
        assert(spec_run(buf, st, echo, lt, fc) == (Seq::<SpecEvent>::empty(), buf, st));
    } else {
        let s1 = buf + chunks[0];
        let r = spec_run(s1, st, echo, lt, fc);
        let rest = spec_feed(chunks.drop_first(), r.1, r.2, echo, lt, fc);
        let e = concat_chunks(chunks.drop_first());

        // The first chunk's events are a prefix, the rest a suffix, of
        // the feed's events: both inherit its goodness.
        assert(good_events(r.0)) by {
            assert(forall|i: int| 0 <= i < r.0.len() ==> r.0[i] == (r.0 + rest.0)[i]);
        }
        assert(good_events(rest.0)) by {
            assert(forall|i: int|
                0 <= i < rest.0.len() ==> rest.0[i] == (r.0 + rest.0)[i + r.0.len()]);
        }

        lemma_run_leftover_quiescent(s1, st, echo, lt, fc);
        lemma_chunk_invariance_feed(chunks.drop_first(), r.1, r.2, echo, lt, fc);
        // rest == spec_run(r.1 + e, r.2)
        lemma_chunk_invariance(s1, e, st, echo, lt, fc);
        // spec_run(s1 + e, st) == (r.0 + rest.0, rest.1, rest.2)
        assert(buf + concat_chunks(chunks) =~= s1 + e);
    }
}

} // verus!
