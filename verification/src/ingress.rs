//! The ingress manager: owns the receive buffer and the digester state,
//! pumps bytes into the digester, publishes classified events onto the
//! response and URC queues, and honors control commands from the client.

use vstd::prelude::*;

use crate::buffer::{
    buf_as_slice, buf_bytes, buf_capacity, buf_clear, buf_extend, buf_len, buf_new,
    buf_rotate_left, buf_truncate, BUF_LEN,
};
use crate::digest::{
    digest_once, lemma_spec_digest_bounds, opt_event_seq, spec_digest, spec_run, DigestResult,
    DigestState, SpecEvent,
};
use crate::error::InternalError;
use crate::queues::{
    com_dequeue, com_enqueue, com_items, com_queue_new, res_dequeue, res_enqueue, res_frames,
    res_queue_new, urc_dequeue, urc_enqueue, urc_frames, urc_queue_new, ResponseFrame,
    COM_CAPACITY, COM_QUEUE_N, RES_CAPACITY, RES_QUEUE_N, URC_CAPACITY, URC_QUEUE_N,
};
use crate::Command;
use crate::Config;

verus! {

/// The view of one response frame, with its body as a byte sequence.
pub open spec fn frame_view(f: ResponseFrame) -> Result<Seq<u8>, InternalError> {
    match f {
        Ok(v) => Ok(v@),
        Err(e) => Err(e),
    }
}

/// The views of a sequence of response frames.
pub open spec fn frame_views(s: Seq<ResponseFrame>) -> Seq<Result<Seq<u8>, InternalError>> {
    Seq::new(s.len(), |i: int| frame_view(s[i]))
}

/// The views of a sequence of URC lines.
pub open spec fn urc_views(s: Seq<Vec<u8>>) -> Seq<Seq<u8>> {
    Seq::new(s.len(), |i: int| s[i]@)
}

/// Push an item onto a bounded queue view: appended when there is room,
/// dropped when the queue is full.
pub open spec fn fit_push<T>(q: Seq<T>, item: T, cap: int) -> Seq<T> {
    if q.len() < cap {
        q.push(item)
    } else {
        q
    }
}

/// Push each item of `items` in turn onto a bounded queue view.
pub open spec fn fit_all<T>(q: Seq<T>, items: Seq<T>, cap: int) -> Seq<T>
    decreases items.len(),
{
    if items.len() == 0 {
        q
    } else {
        fit_all(fit_push(q, items[0], cap), items.drop_first(), cap)
    }
}

/// The frames that a run of digester events places on the response queue:
/// each completed response carries its own result, and a prompt is
/// reported as an empty success.  URCs contribute nothing here.
pub open spec fn resp_events(evs: Seq<SpecEvent>) -> Seq<Result<Seq<u8>, InternalError>>
    decreases evs.len(),
{
    if evs.len() == 0 {
        Seq::empty()
    } else {
        let rest = resp_events(evs.drop_first());
        match evs[0] {
            SpecEvent::Prompt(_) => seq![Ok(Seq::<u8>::empty())] + rest,
            SpecEvent::Resp(r) => seq![r] + rest,
            SpecEvent::Urc(_) => rest,
        }
    }
}

/// The lines that a run of digester events places on the URC queue.
/// Responses and prompts contribute nothing here.
pub open spec fn urc_events(evs: Seq<SpecEvent>) -> Seq<Seq<u8>>
    decreases evs.len(),
{
    if evs.len() == 0 {
        Seq::empty()
    } else {
        let rest = urc_events(evs.drop_first());
        match evs[0] {
            SpecEvent::Urc(u) => seq![u] + rest,
            _ => rest,
        }
    }
}

/// Pushing a queue of items one at a time: the first item goes on first.
pub proof fn lemma_fit_all_cons<T>(q: Seq<T>, x: T, items: Seq<T>, cap: int)
    ensures
        fit_all(q, seq![x] + items, cap) == fit_all(fit_push(q, x, cap), items, cap),
{
    assert((seq![x] + items).drop_first() =~= items);
    assert((seq![x] + items)[0] == x);
}

/// What one control command does to the buffer contents and the digester
/// state.
pub open spec fn apply_com(c: Command, bytes: Seq<u8>, st: DigestState) -> (Seq<u8>, DigestState) {
    match c {
        Command::Reset => (Seq::empty(), DigestState::Idle),
        Command::ForceReceiveState => (bytes, DigestState::ReceivingResponse),
    }
}

/// What draining a whole control queue does, applying each command in
/// arrival order.
pub open spec fn apply_coms(cs: Seq<Command>, bytes: Seq<u8>, st: DigestState) -> (
    Seq<u8>,
    DigestState,
)
    decreases cs.len(),
{
    if cs.len() == 0 {
        (bytes, st)
    } else {
        let h = apply_com(cs[0], bytes, st);
        apply_coms(cs.drop_first(), h.0, h.1)
    }
}

/// The ingress manager.
pub struct IngressManager {
    buf: heapless::Vec<u8, BUF_LEN>,
    res_q: heapless::spsc::Queue<ResponseFrame, RES_QUEUE_N>,
    urc_q: heapless::spsc::Queue<Vec<u8>, URC_QUEUE_N>,
    com_q: heapless::spsc::Queue<Command, COM_QUEUE_N>,
    state: DigestState,
    echo: bool,
    lt: u8,
    fc: u8,
}

impl IngressManager {
    /// The bytes currently held in the receive buffer.
    pub closed spec fn bytes(&self) -> Seq<u8> {
        buf_bytes(self.buf)
    }

    /// The digester state.
    pub closed spec fn dstate(&self) -> DigestState {
        self.state
    }

    /// The response queue contents, as frame views, front first.
    pub closed spec fn res_view(&self) -> Seq<Result<Seq<u8>, InternalError>> {
        frame_views(res_frames(self.res_q))
    }

    /// The URC queue contents, front first.
    pub closed spec fn urc_view(&self) -> Seq<Seq<u8>> {
        urc_views(urc_frames(self.urc_q))
    }

    /// The control queue contents, front first.
    pub closed spec fn com_view(&self) -> Seq<Command> {
        com_items(self.com_q)
    }

    /// Whether echo swallowing is enabled.
    pub closed spec fn echo_on(&self) -> bool {
        self.echo
    }

    /// The configured line termination byte.
    pub closed spec fn line_term(&self) -> u8 {
        self.lt
    }

    /// The configured formatting byte.
    pub closed spec fn format_ch(&self) -> u8 {
        self.fc
    }

    /// Well-formedness: the buffer respects its capacity and each queue
    /// respects its bound.
    pub closed spec fn wf(&self) -> bool {
        &&& self.bytes().len() <= BUF_LEN
        &&& res_frames(self.res_q).len() <= RES_CAPACITY
        &&& urc_frames(self.urc_q).len() <= URC_CAPACITY
        &&& com_items(self.com_q).len() <= COM_CAPACITY
    }

    /// Whether two ingress managers carry the same configuration: the
    /// echo flag and both delimiter bytes are unchanged.
    pub open spec fn same_config(&self, other: &IngressManager) -> bool {
        &&& self.echo_on() == other.echo_on()
        &&& self.line_term() == other.line_term()
        &&& self.format_ch() == other.format_ch()
    }

    /// A fresh ingress manager: empty buffer, empty queues, idle state,
    /// configured from `config`.
    pub fn new(config: &Config) -> (r: IngressManager)
        ensures
            r.wf(),
            r.bytes() == Seq::<u8>::empty(),
            r.dstate() == DigestState::Idle,
            r.res_view() == Seq::<Result<Seq<u8>, InternalError>>::empty(),
            r.urc_view() == Seq::<Seq<u8>>::empty(),
            r.com_view() == Seq::<Command>::empty(),
            r.echo_on() == config.at_echo_enabled,
            r.line_term() == config.line_term_char,
            r.format_ch() == config.format_char,
    {
        let r = IngressManager {
            buf: buf_new(),
            res_q: res_queue_new(),
            urc_q: urc_queue_new(),
            com_q: com_queue_new(),
            state: DigestState::Idle,
            echo: config.at_echo_enabled,
            lt: config.line_term_char,
            fc: config.format_char,
        };
        proof {
            assert(r.res_view() =~= Seq::<Result<Seq<u8>, InternalError>>::empty());
            assert(r.urc_view() =~= Seq::<Seq<u8>>::empty());
        }
        r
    }

    /// The current length of the receive buffer, for flow control.
    pub fn len(&self) -> (n: usize)
        ensures
            n as int == self.bytes().len(),
    {
        buf_len(&self.buf)
    }

    /// Whether the receive buffer is empty.
    pub fn is_empty(&self) -> (r: bool)
        ensures
            r == (self.bytes().len() == 0),
    {
        self.len() == 0
    }

    /// The capacity of the receive buffer.
    pub fn capacity(&self) -> (n: usize)
        ensures
            n == BUF_LEN,
    {
        buf_capacity(&self.buf)
    }

    /// Append incoming bytes to the receive buffer.  When they do not
    /// fit, the extension is discarded, the buffer is flushed so that the
    /// next interaction starts clean, and exactly one `Overflow` frame is
    /// offered to the response queue.
    pub fn write(&mut self, data: &[u8])
        requires
            old(self).wf(),
        ensures
            final(self).wf(),
            old(self).same_config(&*final(self)),
            final(self).dstate() == old(self).dstate(),
            final(self).urc_view() == old(self).urc_view(),
            final(self).com_view() == old(self).com_view(),
            old(self).bytes().len() + data@.len() <= BUF_LEN ==> final(self).bytes() == old(
                self,
            ).bytes() + data@ && final(self).res_view() == old(self).res_view(),
            old(self).bytes().len() + data@.len() > BUF_LEN ==> final(self).bytes()
                == Seq::<u8>::empty() && final(self).res_view() == fit_push(
                old(self).res_view(),
                Err(InternalError::Overflow),
                RES_CAPACITY as int,
            ),
    {
        let ok = buf_extend(&mut self.buf, data);
        if !ok {
            buf_clear(&mut self.buf);
            let ghost before = res_frames(self.res_q);
            let _ = res_enqueue(&mut self.res_q, Err(InternalError::Overflow));
            proof {
                if before.len() < RES_CAPACITY {
                    assert(frame_views(res_frames(self.res_q)) =~= frame_views(before).push(
                        Err(InternalError::Overflow),
                    ));
                }
            }
        }
    }

    /// Drain the control queue, applying each command in arrival order.
    fn handle_com(&mut self)
        requires
            old(self).wf(),
        ensures
            final(self).wf(),
            old(self).same_config(&*final(self)),
            final(self).com_view() == Seq::<Command>::empty(),
            final(self).res_view() == old(self).res_view(),
            final(self).urc_view() == old(self).urc_view(),
            (final(self).bytes(), final(self).dstate()) == apply_coms(
                old(self).com_view(),
                old(self).bytes(),
                old(self).dstate(),
            ),
    {
        let ghost orig = *old(self);
        loop
            invariant
                self.wf(),
                orig.same_config(self),
                self.res_view() == orig.res_view(),
                self.urc_view() == orig.urc_view(),
                apply_coms(self.com_view(), self.bytes(), self.dstate()) == apply_coms(
                    orig.com_view(),
                    orig.bytes(),
                    orig.dstate(),
                ),
            ensures
                self.wf(),
                orig.same_config(self),
                self.res_view() == orig.res_view(),
                self.urc_view() == orig.urc_view(),
                self.com_view().len() == 0,
                apply_coms(self.com_view(), self.bytes(), self.dstate()) == apply_coms(
                    orig.com_view(),
                    orig.bytes(),
                    orig.dstate(),
                ),
            decreases self.com_view().len(),
        {
            let c = com_dequeue(&mut self.com_q);
            match c {
                None => {
                    break;
                },
                Some(Command::Reset) => {
                    buf_clear(&mut self.buf);
                    self.state = DigestState::Idle;
                },
                Some(Command::ForceReceiveState) => {
                    self.state = DigestState::ReceivingResponse;
                },
            }
        }
        proof {
            assert(self.com_view() =~= Seq::<Command>::empty());
        }
    }

    /// Drain the control queue, then digest the buffer to quiescence,
    /// publishing every completed event onto its queue.  An event whose
    /// queue is full is dropped; its bytes are still consumed.
    pub fn digest(&mut self)
        requires
            old(self).wf(),
        ensures
            final(self).wf(),
            old(self).same_config(&*final(self)),
            final(self).com_view() == Seq::<Command>::empty(),
            ({
                let applied = apply_coms(
                    old(self).com_view(),
                    old(self).bytes(),
                    old(self).dstate(),
                );
                let run = spec_run(
                    applied.0,
                    applied.1,
                    old(self).echo_on(),
                    old(self).line_term(),
                    old(self).format_ch(),
                );
                &&& final(self).bytes() == run.1
                &&& final(self).dstate() == run.2
                &&& final(self).res_view() == fit_all(
                    old(self).res_view(),
                    resp_events(run.0),
                    RES_CAPACITY as int,
                )
                &&& final(self).urc_view() == fit_all(
                    old(self).urc_view(),
                    urc_events(run.0),
                    URC_CAPACITY as int,
                )
            }),
    {
        self.handle_com();
        let ghost base = *self;
        let ghost target = spec_run(base.bytes(), base.dstate(), base.echo, base.lt, base.fc);
        loop
            invariant
                self.wf(),
                base.same_config(self),
                self.com_view() == base.com_view(),
                spec_run(self.bytes(), self.dstate(), base.echo, base.lt, base.fc).1 == target.1,
                spec_run(self.bytes(), self.dstate(), base.echo, base.lt, base.fc).2 == target.2,
                fit_all(
                    self.res_view(),
                    resp_events(spec_run(self.bytes(), self.dstate(), base.echo, base.lt, base.fc).0),
                    RES_CAPACITY as int,
                ) == fit_all(base.res_view(), resp_events(target.0), RES_CAPACITY as int),
                fit_all(
                    self.urc_view(),
                    urc_events(spec_run(self.bytes(), self.dstate(), base.echo, base.lt, base.fc).0),
                    URC_CAPACITY as int,
                ) == fit_all(base.urc_view(), urc_events(target.0), URC_CAPACITY as int),
            ensures
                self.wf(),
                base.same_config(self),
                self.com_view() == base.com_view(),
                self.bytes() == target.1,
                self.dstate() == target.2,
                self.res_view() == fit_all(
                    base.res_view(),
                    resp_events(target.0),
                    RES_CAPACITY as int,
                ),
                self.urc_view() == fit_all(
                    base.urc_view(),
                    urc_events(target.0),
                    URC_CAPACITY as int,
                ),
            decreases self.bytes().len(),
        {
            let ghost cur_bytes = self.bytes();
            let ghost cur_state = self.dstate();
            let ghost step = spec_digest(cur_bytes, cur_state, base.echo, base.lt, base.fc);
            proof {
                lemma_spec_digest_bounds(cur_bytes, cur_state, base.echo, base.lt, base.fc);
            }
            let (res, consumed, nst) = {
                let s = buf_as_slice(&self.buf);
                digest_once(s, self.state, self.echo, self.lt, self.fc)
            };
            if consumed == 0 {
                proof {
                    assert(opt_event_seq(step.event) =~= Seq::<SpecEvent>::empty());
                    assert(spec_run(cur_bytes, cur_state, base.echo, base.lt, base.fc).0
                        =~= Seq::<SpecEvent>::empty());
                }
                break;
            }
            let ghost rest_run = spec_run(
                cur_bytes.skip(step.consumed),
                step.next,
                base.echo,
                base.lt,
                base.fc,
            );
            proof {
                assert(spec_run(cur_bytes, cur_state, base.echo, base.lt, base.fc).0
                    == opt_event_seq(step.event) + rest_run.0);
            }
            // Publish the event, if any; a full queue drops it.
            match res {
                DigestResult::Pending => {
                    proof {
                        assert(opt_event_seq(step.event) + rest_run.0 =~= rest_run.0);
                    }
                },
                DigestResult::Prompt(_) => {
                    let ghost before = res_frames(self.res_q);
                    let _ = res_enqueue(&mut self.res_q, Ok(Vec::new()));
                    proof {
                        if before.len() < RES_CAPACITY {
                            assert(frame_views(res_frames(self.res_q)) =~= frame_views(
                                before,
                            ).push(Ok(Seq::<u8>::empty())));
                        }
                        assert((opt_event_seq(step.event) + rest_run.0).drop_first()
                            =~= rest_run.0);
                        assert(resp_events(opt_event_seq(step.event) + rest_run.0)
                            =~= seq![Ok(Seq::<u8>::empty())] + resp_events(rest_run.0));
                        assert(urc_events(opt_event_seq(step.event) + rest_run.0)
                            =~= urc_events(rest_run.0));
                        lemma_fit_all_cons(
                            frame_views(before),
                            Ok(Seq::<u8>::empty()),
                            resp_events(rest_run.0),
                            RES_CAPACITY as int,
                        );
                    }
                },
                DigestResult::Urc(line) => {
                    let ghost lv = line@;
                    let ghost before = urc_frames(self.urc_q);
                    let _ = urc_enqueue(&mut self.urc_q, line);
                    proof {
                        if before.len() < URC_CAPACITY {
                            assert(urc_views(urc_frames(self.urc_q)) =~= urc_views(before).push(
                                lv,
                            ));
                        }
                        assert((opt_event_seq(step.event) + rest_run.0).drop_first()
                            =~= rest_run.0);
                        assert(urc_events(opt_event_seq(step.event) + rest_run.0) =~= seq![lv]
                            + urc_events(rest_run.0));
                        assert(resp_events(opt_event_seq(step.event) + rest_run.0)
                            =~= resp_events(rest_run.0));
                        lemma_fit_all_cons(
                            urc_views(before),
                            lv,
                            urc_events(rest_run.0),
                            URC_CAPACITY as int,
                        );
                    }
                },
                DigestResult::Response(frame) => {
                    let ghost fv = frame_view(frame);
                    let ghost before = res_frames(self.res_q);
                    let _ = res_enqueue(&mut self.res_q, frame);
                    proof {
                        if before.len() < RES_CAPACITY {
                            assert(frame_views(res_frames(self.res_q)) =~= frame_views(
                                before,
                            ).push(fv));
                        }
                        assert((opt_event_seq(step.event) + rest_run.0).drop_first()
                            =~= rest_run.0);
                        assert(resp_events(opt_event_seq(step.event) + rest_run.0) =~= seq![fv]
                            + resp_events(rest_run.0));
                        assert(urc_events(opt_event_seq(step.event) + rest_run.0)
                            =~= urc_events(rest_run.0));
                        lemma_fit_all_cons(
                            frame_views(before),
                            fv,
                            resp_events(rest_run.0),
                            RES_CAPACITY as int,
                        );
                    }
                },
            }
            // Drop the consumed bytes from the head of the buffer.
            let cur_len = buf_len(&self.buf);
            buf_rotate_left(&mut self.buf, consumed);
            buf_truncate(&mut self.buf, cur_len - consumed);
            self.state = nst;
            proof {
                assert(self.bytes() =~= cur_bytes.skip(step.consumed));
            }
        }
    }

    /// Take the next completed response frame off the response queue.
    pub fn dequeue_response(&mut self) -> (r: Option<ResponseFrame>)
        requires
            old(self).wf(),
        ensures
            final(self).wf(),
            old(self).same_config(&*final(self)),
            final(self).bytes() == old(self).bytes(),
            final(self).dstate() == old(self).dstate(),
            final(self).urc_view() == old(self).urc_view(),
            final(self).com_view() == old(self).com_view(),
            old(self).res_view().len() == 0 ==> r is None && final(self).res_view() == old(
                self,
            ).res_view(),
            old(self).res_view().len() > 0 ==> (match r {
                Some(f) => frame_view(f) == old(self).res_view()[0] && final(self).res_view()
                    == old(self).res_view().drop_first(),
                None => false,
            }),
    {
        let ghost before = res_frames(self.res_q);
        let r = res_dequeue(&mut self.res_q);
        proof {
            if before.len() > 0 {
                assert(frame_views(res_frames(self.res_q)) =~= frame_views(before).drop_first());
            }
        }
        r
    }

    /// Take the next URC line off the URC queue.
    pub fn dequeue_urc(&mut self) -> (r: Option<Vec<u8>>)
        requires
            old(self).wf(),
        ensures
            final(self).wf(),
            old(self).same_config(&*final(self)),
            final(self).bytes() == old(self).bytes(),
            final(self).dstate() == old(self).dstate(),
            final(self).res_view() == old(self).res_view(),
            final(self).com_view() == old(self).com_view(),
            old(self).urc_view().len() == 0 ==> r is None && final(self).urc_view() == old(
                self,
            ).urc_view(),
            old(self).urc_view().len() > 0 ==> (match r {
                Some(u) => u@ == old(self).urc_view()[0] && final(self).urc_view() == old(
                    self,
                ).urc_view().drop_first(),
                None => false,
            }),
    {
        let ghost before = urc_frames(self.urc_q);
        let r = urc_dequeue(&mut self.urc_q);
        proof {
            if before.len() > 0 {
                assert(urc_views(urc_frames(self.urc_q)) =~= urc_views(before).drop_first());
            }
        }
        r
    }

    /// Place a control command on the control queue; reports whether the
    /// queue had room.
    pub fn enqueue_control(&mut self, c: Command) -> (r: bool)
        requires
            old(self).wf(),
        ensures
            final(self).wf(),
            old(self).same_config(&*final(self)),
            final(self).bytes() == old(self).bytes(),
            final(self).dstate() == old(self).dstate(),
            final(self).res_view() == old(self).res_view(),
            final(self).urc_view() == old(self).urc_view(),
            old(self).com_view().len() < COM_CAPACITY ==> r && final(self).com_view() == old(
                self,
            ).com_view().push(c),
            old(self).com_view().len() >= COM_CAPACITY ==> !r && final(self).com_view() == old(
                self,
            ).com_view(),
    {
        com_enqueue(&mut self.com_q, c)
    }

    /// Buffer boundedness, spelled out: a well-formed ingress manager
    /// never holds more bytes than its capacity, and every method keeps
    /// it well-formed.
    pub proof fn lemma_buffer_bounded(&self)
        requires
            self.wf(),
        ensures
            self.bytes().len() <= BUF_LEN,
    {
    }

    /// The digester state, for observation from outside.
    pub fn digest_state(&self) -> (s: DigestState)
        ensures
            s == self.dstate(),
    {
        self.state
    }
}

} // verus!
