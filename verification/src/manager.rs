//! The client manager: the one owner of the outgoing connection, through
//! which the requests of many producers pass one at a time.
//!
//! The manager decides; its caller acts. The caller holds the queue and the
//! stream, tells the manager each thing that happens as an [`Event`], and
//! does what the [`Decision`] says: deliver a result on a reply channel, and
//! then wait for the queue, write, read or close. A reply channel is a value
//! of any type `R`; the manager only carries it from the request to the
//! resolution.

use crate::command::{request_frame, Command, CommandView};
use crate::connection::{
    arrival, attempt, fits, lemma_prefix_is_incomplete, Connection, ConnectionError, ReadStep,
    ReadStepView,
};
use crate::reply::{read_reply, reply_of, result_view, ClientError, ClientErrorView, Reply, ReplyView};
use crate::frame::FrameView;
use crate::wire::{decode, encode_frame, lemma_decode_len, lemma_round_trip, representable};
use vstd::multiset::Multiset;
use vstd::prelude::*;

verus! {

/// Where the manager stands in its life.
#[derive(Clone, Copy, Debug, PartialEq, Eq, Structural)]
pub enum Phase {
    /// Made, and not yet connected.
    Idle,
    /// Connected: requests are taken from the queue and carried out.
    Running,
    /// No request is taken any more; the connection is being torn down.
    Draining,
    /// The connection is gone.
    Closed,
}

/// A command on its way, with the channel on which its result is due.
#[derive(Debug, PartialEq, Eq)]
pub struct PendingRequest<R> {
    pub command: Command,
    pub reply_channel: R,
}

/// The mathematical value of a [`PendingRequest`].
pub struct PendingView<R> {
    pub command: CommandView,
    pub reply_channel: R,
}

impl<R> View for PendingRequest<R> {
    type V = PendingView<R>;

    open spec fn view(&self) -> PendingView<R> {
        PendingView { command: self.command@, reply_channel: self.reply_channel }
    }
}

/// What has happened.
#[derive(Debug, PartialEq, Eq)]
pub enum Event<R> {
    /// The connection to the server stands.
    Connected,
    /// The queue has handed over a request.
    Request(PendingRequest<R>),
    /// The queue is empty and no producer is left.
    QueueClosed,
    /// The bytes of the last `Send` are written and flushed.
    Sent,
    /// A read from the stream has returned these bytes; none means that the
    /// server has closed the stream.
    Arrived(Vec<u8>),
    /// Connecting, writing or reading has failed.
    Broken,
    /// The connection is torn down.
    Disconnected,
}

/// The mathematical value of an [`Event`].
pub enum EventView<R> {
    Connected,
    Request(PendingView<R>),
    QueueClosed,
    Sent,
    Arrived(Seq<u8>),
    Broken,
    Disconnected,
}

impl<R> View for Event<R> {
    type V = EventView<R>;

    open spec fn view(&self) -> EventView<R> {
        match self {
            Event::Connected => EventView::Connected,
            Event::Request(request) => EventView::Request(request@),
            Event::QueueClosed => EventView::QueueClosed,
            Event::Sent => EventView::Sent,
            Event::Arrived(bytes) => EventView::Arrived(bytes@),
            Event::Broken => EventView::Broken,
            Event::Disconnected => EventView::Disconnected,
        }
    }
}

/// What the caller does next.
#[derive(Debug, PartialEq, Eq)]
pub enum Next {
    /// Take the next request from the queue.
    Receive,
    /// Write these bytes to the stream and flush it.
    Send(Vec<u8>),
    /// Read from the stream.
    Read,
    /// Tear the connection down.
    Close,
    /// Go on with what the decision before asked for.
    Continue,
    /// Nothing is left to do.
    Stop,
}

/// The mathematical value of a [`Next`].
pub enum NextView {
    Receive,
    Send(Seq<u8>),
    Read,
    Close,
    Continue,
    Stop,
}

impl View for Next {
    type V = NextView;

    open spec fn view(&self) -> NextView {
        match self {
            Next::Receive => NextView::Receive,
            Next::Send(bytes) => NextView::Send(bytes@),
            Next::Read => NextView::Read,
            Next::Close => NextView::Close,
            Next::Continue => NextView::Continue,
            Next::Stop => NextView::Stop,
        }
    }
}

/// A result, and the reply channel that it goes out on.
#[derive(Debug, PartialEq, Eq)]
pub struct Resolution<R> {
    pub reply_channel: R,
    pub result: Result<Reply, ClientError>,
}

/// The mathematical value of a [`Resolution`].
pub struct ResolutionView<R> {
    pub reply_channel: R,
    pub result: Result<ReplyView, ClientErrorView>,
}

impl<R> View for Resolution<R> {
    type V = ResolutionView<R>;

    open spec fn view(&self) -> ResolutionView<R> {
        ResolutionView { reply_channel: self.reply_channel, result: result_view(self.result) }
    }
}

/// What the manager has decided: a result to deliver, if one is due, and
/// what to do after that.
#[derive(Debug, PartialEq, Eq)]
pub struct Decision<R> {
    pub resolved: Option<Resolution<R>>,
    pub next: Next,
}

/// The mathematical value of a [`Decision`].
pub struct DecisionView<R> {
    pub resolved: Option<ResolutionView<R>>,
    pub next: NextView,
}

impl<R> View for Decision<R> {
    type V = DecisionView<R>;

    open spec fn view(&self) -> DecisionView<R> {
        DecisionView {
            resolved: match self.resolved {
                Some(resolution) => Some(resolution@),
                None => None,
            },
            next: self.next@,
        }
    }
}

/// The manager of one outgoing connection.
pub struct Manager<R> {
    phase: Phase,
    connection: Connection,
    in_flight: Option<PendingRequest<R>>,
    sent: bool,
}

/// The mathematical value of a [`Manager`].
pub struct ManagerView<R> {
    /// Where the manager stands.
    pub phase: Phase,
    /// The bytes that have arrived and belong to no answer read so far.
    pub pending: Seq<u8>,
    /// The request that is on the wire and not yet resolved.
    pub in_flight: Option<PendingView<R>>,
    /// Whether the bytes of that request are written.
    pub sent: bool,
}

impl<R> View for Manager<R> {
    type V = ManagerView<R>;

    closed spec fn view(&self) -> ManagerView<R> {
        ManagerView {
            phase: self.phase,
            pending: self.connection@,
            in_flight: match self.in_flight {
                Some(request) => Some(request@),
                None => None,
            },
            sent: self.sent,
        }
    }
}

/// Whether the manager can take in an event: bytes that arrive have to fit
/// in the buffer.
pub open spec fn takes<R>(manager: ManagerView<R>, event: EventView<R>) -> bool {
    event matches EventView::Arrived(bytes) ==> fits(manager.pending, bytes)
}

/// A decision that delivers nothing.
pub open spec fn quiet<R>(next: NextView) -> DecisionView<R> {
    DecisionView { resolved: None, next }
}

/// A decision that delivers `result` on `reply_channel`.
pub open spec fn resolve<R>(
    reply_channel: R,
    result: Result<ReplyView, ClientErrorView>,
    next: NextView,
) -> DecisionView<R> {
    DecisionView { resolved: Some(ResolutionView { reply_channel, result }), next }
}

/// The manager once the request in flight is resolved.
pub open spec fn released<R>(manager: ManagerView<R>, phase: Phase, pending: Seq<u8>) -> ManagerView<
    R,
> {
    ManagerView { phase, pending, in_flight: None, sent: false }
}

/// The outcome of a step of reading the answer to the request in flight:
/// while bytes are missing the manager reads on; a frame resolves the
/// request with what it means, and the manager turns to the queue; the end
/// or the failure of the stream resolves the request with that error, and
/// the manager shuts down.
pub open spec fn conclude<R>(manager: ManagerView<R>, step: (ReadStepView, Seq<u8>)) -> (
    ManagerView<R>,
    DecisionView<R>,
)
    recommends
        manager.in_flight is Some,
{
    let request = manager.in_flight->0;
    match step.0 {
        ReadStepView::NeedBytes => (
            ManagerView { pending: step.1, sent: true, ..manager },
            quiet(NextView::Read),
        ),
        ReadStepView::Frame(answer) => (
            released(manager, manager.phase, step.1),
            resolve(
                request.reply_channel,
                reply_of(request.command, answer),
                NextView::Receive,
            ),
        ),
        ReadStepView::EndOfStream => (
            released(manager, Phase::Draining, step.1),
            resolve(
                request.reply_channel,
                Err(ClientErrorView::Connection(ConnectionError::ConnectionReset)),
                NextView::Close,
            ),
        ),
        ReadStepView::Failed(error) => (
            released(manager, Phase::Draining, step.1),
            resolve(
                request.reply_channel,
                Err(ClientErrorView::Connection(error)),
                NextView::Close,
            ),
        ),
    }
}

/// The manager after an event, and its decision.
///
/// * Connected, while idle: the manager runs and turns to the queue.
/// * A request, while the manager runs and none is in flight: it is in
///   flight, and its bytes are to be sent. At any other moment the request
///   is resolved at once, with `ManagerGone`.
/// * The end of the queue, while the manager runs and nothing is in flight:
///   the manager drains, and the connection is to be closed.
/// * Sent, for the request in flight: the pending bytes are tried for the
///   answer (see [`conclude`]).
/// * Bytes arrived, for the request in flight once it is sent: they are
///   buffered and tried for the answer.
/// * Broken: an idle manager is closed; a running one resolves the request
///   in flight, if there is one, with a reset, and drains.
/// * Disconnected, while draining: the manager is closed.
///
/// An event at any other moment changes nothing.
pub open spec fn step_spec<R>(manager: ManagerView<R>, event: EventView<R>) -> (
    ManagerView<R>,
    DecisionView<R>,
) {
    let running = manager.phase == Phase::Running;
    match event {
        EventView::Request(request) => if running && manager.in_flight is None {
            (
                ManagerView { in_flight: Some(request), sent: false, ..manager },
                quiet(NextView::Send(encode_frame(request_frame(request.command)))),
            )
        } else {
            (
                manager,
                resolve(
                    request.reply_channel,
                    Err(ClientErrorView::ManagerGone),
                    NextView::Continue,
                ),
            )
        },
        EventView::Connected => if manager.phase == Phase::Idle {
            (ManagerView { phase: Phase::Running, ..manager }, quiet(NextView::Receive))
        } else {
            (manager, quiet(NextView::Continue))
        },
        EventView::QueueClosed => if running && manager.in_flight is None {
            (ManagerView { phase: Phase::Draining, ..manager }, quiet(NextView::Close))
        } else {
            (manager, quiet(NextView::Continue))
        },
        EventView::Sent => if running && manager.in_flight is Some && !manager.sent {
            conclude(manager, attempt(manager.pending))
        } else {
            (manager, quiet(NextView::Continue))
        },
        EventView::Arrived(bytes) => if running && manager.in_flight is Some && manager.sent {
            conclude(manager, arrival(manager.pending, bytes))
        } else {
            (manager, quiet(NextView::Continue))
        },
        EventView::Broken => if manager.phase == Phase::Idle {
            (ManagerView { phase: Phase::Closed, ..manager }, quiet(NextView::Stop))
        } else if running {
            (
                released(manager, Phase::Draining, manager.pending),
                match manager.in_flight {
                    Some(request) => resolve(
                        request.reply_channel,
                        Err(ClientErrorView::Connection(ConnectionError::ConnectionReset)),
                        NextView::Close,
                    ),
                    None => quiet(NextView::Close),
                },
            )
        } else {
            (manager, quiet(NextView::Continue))
        },
        EventView::Disconnected => if manager.phase == Phase::Draining {
            (ManagerView { phase: Phase::Closed, ..manager }, quiet(NextView::Stop))
        } else {
            (manager, quiet(NextView::Continue))
        },
    }
}

impl<R> Manager<R> {
    /// A manager that is idle, with nothing pending and nothing in flight.
    pub fn new() -> (manager: Manager<R>)
        ensures
            manager@ == (ManagerView::<R> {
                phase: Phase::Idle,
                pending: Seq::empty(),
                in_flight: None,
                sent: false,
            }),
    {
        Manager { phase: Phase::Idle, connection: Connection::new(), in_flight: None, sent: false }
    }

    /// Where the manager stands.
    pub fn phase(&self) -> (phase: Phase)
        ensures
            phase == self@.phase,
    {
        self.phase
    }

    /// The number of bytes that have arrived and belong to no answer yet.
    pub fn pending(&self) -> (len: usize)
        ensures
            len == self@.pending.len(),
    {
        self.connection.pending()
    }

    /// Whether a request is in flight.
    pub fn busy(&self) -> (busy: bool)
        ensures
            busy == self@.in_flight is Some,
    {
        self.in_flight.is_some()
    }

    /// Resolves the request in flight according to a step of reading.
    fn finish(&mut self, step: ReadStep) -> (decision: Decision<R>)
        requires
            old(self)@.in_flight is Some,
        ensures
            (final(self)@, decision@) == conclude(
                old(self)@,
                (step@, old(self)@.pending),
            ),
            final(self).connection == old(self).connection,
    {
        match step {
            ReadStep::NeedBytes => {
                self.sent = true;
                Decision { resolved: None, next: Next::Read }
            },
            ReadStep::Frame(answer) => {
                let request = self.in_flight.take().unwrap();
                self.sent = false;
                let result = read_reply(&request.command, answer);
                Decision {
                    resolved: Some(Resolution { reply_channel: request.reply_channel, result }),
                    next: Next::Receive,
                }
            },
            ReadStep::EndOfStream => {
                let request = self.in_flight.take().unwrap();
                self.sent = false;
                self.phase = Phase::Draining;
                Decision {
                    resolved: Some(
                        Resolution {
                            reply_channel: request.reply_channel,
                            result: Err(
                                ClientError::Connection(ConnectionError::ConnectionReset),
                            ),
                        },
                    ),
                    next: Next::Close,
                }
            },
            ReadStep::Failed(error) => {
                let request = self.in_flight.take().unwrap();
                self.sent = false;
                self.phase = Phase::Draining;
                Decision {
                    resolved: Some(
                        Resolution {
                            reply_channel: request.reply_channel,
                            result: Err(ClientError::Connection(error)),
                        },
                    ),
                    next: Next::Close,
                }
            },
        }
    }

    /// Takes in what has happened, and decides what to do.
    pub fn step(&mut self, event: Event<R>) -> (decision: Decision<R>)
        requires
            takes(old(self)@, event@),
        ensures
            (final(self)@, decision@) == step_spec(old(self)@, event@),
    {
        let running: bool = match self.phase {
            Phase::Running => true,
            _ => false,
        };
        let busy: bool = self.in_flight.is_some();
        match event {
            Event::Request(request) => {
                if running && !busy {
                    let bytes = request.command.to_frame().encode();
                    self.in_flight = Some(request);
                    self.sent = false;
                    Decision { resolved: None, next: Next::Send(bytes) }
                } else {
                    Decision {
                        resolved: Some(
                            Resolution {
                                reply_channel: request.reply_channel,
                                result: Err(ClientError::ManagerGone),
                            },
                        ),
                        next: Next::Continue,
                    }
                }
            },
            Event::Connected => match self.phase {
                Phase::Idle => {
                    self.phase = Phase::Running;
                    Decision { resolved: None, next: Next::Receive }
                },
                _ => Decision { resolved: None, next: Next::Continue },
            },
            Event::QueueClosed => {
                if running && !busy {
                    self.phase = Phase::Draining;
                    Decision { resolved: None, next: Next::Close }
                } else {
                    Decision { resolved: None, next: Next::Continue }
                }
            },
            Event::Sent => {
                if running && busy && !self.sent {
                    let step = self.connection.read_frame();
                    self.finish(step)
                } else {
                    Decision { resolved: None, next: Next::Continue }
                }
            },
            Event::Arrived(bytes) => {
                if running && busy && self.sent {
                    let step = self.connection.receive(bytes.as_slice());
                    self.finish(step)
                } else {
                    Decision { resolved: None, next: Next::Continue }
                }
            },
            Event::Broken => match self.phase {
                Phase::Idle => {
                    self.phase = Phase::Closed;
                    Decision { resolved: None, next: Next::Stop }
                },
                Phase::Running => {
                    self.phase = Phase::Draining;
                    self.sent = false;
                    match self.in_flight.take() {
                        Some(request) => Decision {
                            resolved: Some(
                                Resolution {
                                    reply_channel: request.reply_channel,
                                    result: Err(
                                        ClientError::Connection(ConnectionError::ConnectionReset),
                                    ),
                                },
                            ),
                            next: Next::Close,
                        },
                        None => Decision { resolved: None, next: Next::Close },
                    }
                },
                _ => Decision { resolved: None, next: Next::Continue },
            },
            Event::Disconnected => match self.phase {
                Phase::Draining => {
                    self.phase = Phase::Closed;
                    Decision { resolved: None, next: Next::Stop }
                },
                _ => Decision { resolved: None, next: Next::Continue },
            },
        }
    }

    /// Takes in what has happened for a caller that has not made sure that
    /// the bytes of an arrival fit in the buffer: as `step` where they do,
    /// and the event handed back, with nothing changed, where they do not.
    pub fn offer(&mut self, event: Event<R>) -> (outcome: Result<Decision<R>, Event<R>>)
        ensures
            takes(old(self)@, event@) ==> (outcome matches Ok(decision) && (
                final(self)@,
                decision@,
            ) == step_spec(old(self)@, event@)),
            !takes(old(self)@, event@) ==> outcome == Err::<Decision<R>, Event<R>>(event)
                && final(self)@ == old(self)@,
    {
        let room: bool = match &event {
            Event::Arrived(bytes) => self.connection.has_room(bytes.len()),
            _ => true,
        };
        if room {
            Ok(self.step(event))
        } else {
            Err(event)
        }
    }
}

/// The manager after a sequence of events, and its decisions, one for each
/// event.
pub open spec fn run<R>(manager: ManagerView<R>, events: Seq<EventView<R>>) -> (
    ManagerView<R>,
    Seq<DecisionView<R>>,
)
    decreases events.len(),
{
    if events.len() == 0 {
        (manager, Seq::empty())
    } else {
        let first = step_spec(manager, events[0]);
        let others = run(first.0, events.drop_first());
        (others.0, seq![first.1] + others.1)
    }
}

/// The reply channel of the request in flight, if there is one.
pub open spec fn held<R>(manager: ManagerView<R>) -> Multiset<R> {
    match manager.in_flight {
        Some(request) => Multiset::singleton(request.reply_channel),
        None => Multiset::empty(),
    }
}

/// The reply channel that comes in with an event, if it is a request.
pub open spec fn asked<R>(event: EventView<R>) -> Multiset<R> {
    match event {
        EventView::Request(request) => Multiset::singleton(request.reply_channel),
        _ => Multiset::empty(),
    }
}

/// The reply channel that a decision delivers a result on, if it does.
pub open spec fn answered<R>(decision: DecisionView<R>) -> Multiset<R> {
    match decision.resolved {
        Some(resolution) => Multiset::singleton(resolution.reply_channel),
        None => Multiset::empty(),
    }
}

/// The reply channels that come in with a sequence of events.
pub open spec fn all_asked<R>(events: Seq<EventView<R>>) -> Multiset<R>
    decreases events.len(),
{
    if events.len() == 0 {
        Multiset::empty()
    } else {
        asked(events[0]).add(all_asked(events.drop_first()))
    }
}

/// The reply channels that a sequence of decisions delivers results on.
pub open spec fn all_answered<R>(decisions: Seq<DecisionView<R>>) -> Multiset<R>
    decreases decisions.len(),
{
    if decisions.len() == 0 {
        Multiset::empty()
    } else {
        answered(decisions[0]).add(all_answered(decisions.drop_first()))
    }
}

/// One step neither loses a reply channel nor uses one twice: the channel
/// in flight after it and the channel it delivers on are, counted with
/// multiplicity, the channel in flight before it and the channel that came in.
pub proof fn lemma_step_keeps_channels<R>(manager: ManagerView<R>, event: EventView<R>)
    ensures
        held(step_spec(manager, event).0).add(answered(step_spec(manager, event).1)) == held(
            manager,
        ).add(asked(event)),
{
    let after = step_spec(manager, event);
    assert(held(after.0).add(answered(after.1)) =~= held(manager).add(asked(event)));
}

/// Exactly one resolution for each request: over any sequence of events,
/// the reply channels that results went out on, with the one still in
/// flight, are the reply channels that came in, with the one that was in
/// flight at the start, each as often as the other.
pub proof fn lemma_resolves_exactly_once<R>(manager: ManagerView<R>, events: Seq<EventView<R>>)
    ensures
        held(run(manager, events).0).add(all_answered(run(manager, events).1)) == held(
            manager,
        ).add(all_asked(events)),
    decreases events.len(),
{
    if events.len() == 0 {
        assert(held(manager).add(Multiset::empty()) =~= held(manager));
    } else {
        let first = step_spec(manager, events[0]);
        let others = run(first.0, events.drop_first());
        let decisions = seq![first.1] + others.1;
        lemma_step_keeps_channels(manager, events[0]);
        lemma_resolves_exactly_once(first.0, events.drop_first());
        assert(decisions.drop_first() =~= others.1);
        assert(decisions[0] == first.1);
        assert(all_answered(decisions) == answered(first.1).add(all_answered(others.1)));
        assert(held(others.0).add(all_answered(decisions)) =~= held(others.0).add(
            all_answered(others.1),
        ).add(answered(first.1)));
        assert(held(manager).add(all_asked(events)) =~= held(manager).add(asked(events[0])).add(
            all_asked(events.drop_first()),
        ));
        assert(held(first.0).add(all_asked(events.drop_first())).add(answered(first.1))
            =~= held(first.0).add(answered(first.1)).add(all_asked(events.drop_first())));
    }
}

/// A running manager with nothing pending and nothing in flight.
pub open spec fn ready<R>() -> ManagerView<R> {
    ManagerView { phase: Phase::Running, pending: Seq::empty(), in_flight: None, sent: false }
}

/// The events of one exchange in turn: the request comes in, its bytes are
/// sent, and the bytes of the answer arrive.
pub open spec fn exchange<R>(request: PendingView<R>, answer: FrameView) -> Seq<EventView<R>> {
    seq![EventView::Request(request), EventView::Sent, EventView::Arrived(encode_frame(answer))]
}

/// The decisions of one exchange in turn: send the bytes of the request,
/// read, and deliver on the request's own reply channel what the answer
/// means for its command.
pub open spec fn exchange_decisions<R>(request: PendingView<R>, answer: FrameView) -> Seq<
    DecisionView<R>,
> {
    seq![
        quiet(NextView::Send(encode_frame(request_frame(request.command)))),
        quiet(NextView::Read),
        resolve(
            request.reply_channel,
            reply_of(request.command, answer),
            NextView::Receive,
        ),
    ]
}

/// The events of several exchanges, one after the other.
pub open spec fn exchanges<R>(requests: Seq<PendingView<R>>, answers: Seq<FrameView>) -> Seq<
    EventView<R>,
>
    recommends
        requests.len() == answers.len(),
    decreases requests.len(),
{
    if requests.len() == 0 {
        Seq::empty()
    } else {
        exchange(requests[0], answers[0]) + exchanges(
            requests.drop_first(),
            answers.drop_first(),
        )
    }
}

/// The decisions of several exchanges, one after the other.
pub open spec fn exchanges_decisions<R>(
    requests: Seq<PendingView<R>>,
    answers: Seq<FrameView>,
) -> Seq<DecisionView<R>>
    recommends
        requests.len() == answers.len(),
    decreases requests.len(),
{
    if requests.len() == 0 {
        Seq::empty()
    } else {
        exchange_decisions(requests[0], answers[0]) + exchanges_decisions(
            requests.drop_first(),
            answers.drop_first(),
        )
    }
}

/// A run over two sequences of events is the run over the first, and from
/// where that ends the run over the second.
pub proof fn lemma_run_concat<R>(
    manager: ManagerView<R>,
    first: Seq<EventView<R>>,
    second: Seq<EventView<R>>,
)
    ensures
        run(manager, first + second) == (
            run(run(manager, first).0, second).0,
            run(manager, first).1 + run(run(manager, first).0, second).1,
        ),
    decreases first.len(),
{
    if first.len() == 0 {
        assert(first + second =~= second);
        assert(run(manager, first).1 + run(manager, second).1 =~= run(manager, second).1);
    } else {
        let head = step_spec(manager, first[0]);
        assert((first + second)[0] == first[0]);
        assert((first + second).drop_first() =~= first.drop_first() + second);
        lemma_run_concat(head.0, first.drop_first(), second);
        let middle = run(head.0, first.drop_first());
        let end = run(middle.0, second);
        assert(seq![head.1] + (middle.1 + end.1) =~= (seq![head.1] + middle.1) + end.1);
    }
}

/// One exchange in turn, from a ready manager, sends the request, reads,
/// resolves the request with the meaning of its answer, and leaves the
/// manager ready.
pub proof fn lemma_exchange<R>(request: PendingView<R>, answer: FrameView)
    requires
        representable(answer),
    ensures
        run(ready::<R>(), exchange(request, answer)) == (
            ready::<R>(),
            exchange_decisions(request, answer),
        ),
{
    let none = Seq::<u8>::empty();
    let bytes = encode_frame(answer);
    let events = exchange(request, answer);
    let start = ready::<R>();
    lemma_round_trip(answer);
    lemma_decode_len(bytes);
    assert(none + bytes =~= bytes);
    assert(bytes.skip(bytes.len() as int) =~= none);
    let one = step_spec(start, events[0]);
    let two = step_spec(one.0, events[1]);
    let three = step_spec(two.0, events[2]);
    assert(two.0 == (ManagerView { sent: true, ..one.0 }));
    assert(three.0 == start);
    let tail2 = events.drop_first();
    let tail3 = tail2.drop_first();
    assert(tail2[0] == events[1]);
    assert(tail3[0] == events[2]);
    assert(tail3.drop_first() =~= Seq::<EventView<R>>::empty());
    assert(run(three.0, tail3.drop_first()) == (three.0, Seq::<DecisionView<R>>::empty()));
    assert(run(two.0, tail3).1 =~= seq![three.1]);
    assert(run(one.0, tail2).1 =~= seq![two.1, three.1]);
    assert(run(start, events).1 =~= seq![one.1, two.1, three.1]);
}

/// Requests leave in the order in which they came, and none is answered
/// with the answer to another: when requests are handed to a ready manager
/// one exchange after the other, the bytes it sends are those of the
/// requests in their order, and each result goes out on the reply channel
/// of the request whose answer it is.
pub proof fn lemma_requests_in_order<R>(requests: Seq<PendingView<R>>, answers: Seq<FrameView>)
    requires
        requests.len() == answers.len(),
        forall|i: int| 0 <= i < answers.len() ==> representable(#[trigger] answers[i]),
    ensures
        run(ready::<R>(), exchanges(requests, answers)) == (
            ready::<R>(),
            exchanges_decisions(requests, answers),
        ),
    decreases requests.len(),
{
    if requests.len() > 0 {
        let later = answers.drop_first();
        assert forall|i: int| 0 <= i < later.len() implies representable(
            #[trigger] later[i],
        ) by {
            assert(later[i] == answers[i + 1]);
        }
        lemma_exchange(requests[0], answers[0]);
        lemma_requests_in_order(requests.drop_first(), later);
        lemma_run_concat(
            ready::<R>(),
            exchange(requests[0], answers[0]),
            exchanges(requests.drop_first(), later),
        );
    }
}

/// The arrivals of the chunks of a stream, one event for each chunk.
pub open spec fn arrivals<R>(chunks: Seq<Seq<u8>>) -> Seq<EventView<R>> {
    Seq::new(chunks.len(), |i: int| EventView::Arrived(chunks[i]))
}

/// A running manager that has sent `request` and waits for its answer, with
/// `pending` buffered.
pub open spec fn waiting<R>(request: PendingView<R>, pending: Seq<u8>) -> ManagerView<R> {
    ManagerView { phase: Phase::Running, pending, in_flight: Some(request), sent: true }
}

/// The decisions of a manager that waits while the chunks of an answer
/// arrive: it reads on at every chunk but the last, and at the last it
/// delivers what the answer means on the reply channel of the request.
pub open spec fn waiting_decisions<R>(
    request: PendingView<R>,
    answer: FrameView,
    chunks: nat,
) -> Seq<DecisionView<R>>
    recommends
        chunks > 0,
{
    Seq::new((chunks - 1) as nat, |i: int| quiet(NextView::Read)).push(
        resolve(request.reply_channel, reply_of(request.command, answer), NextView::Receive),
    )
}

/// An answer may arrive in pieces of any size: however its bytes are cut
/// into chunks, the manager that waits for it reads on until the last chunk
/// is there, resolves the request with what the whole answer means, and is
/// ready again with nothing pending.
pub proof fn lemma_answer_in_chunks<R>(
    request: PendingView<R>,
    answer: FrameView,
    pending: Seq<u8>,
    chunks: Seq<Seq<u8>>,
)
    requires
        representable(answer),
        pending + chunks.flatten() == encode_frame(answer),
        decode(pending) is Incomplete,
        forall|i: int| 0 <= i < chunks.len() ==> (#[trigger] chunks[i]).len() > 0,
    ensures
        chunks.len() > 0,
        run(waiting(request, pending), arrivals(chunks)) == (
            ready::<R>(),
            waiting_decisions(request, answer, chunks.len()),
        ),
    decreases chunks.len(),
{
    let bytes = encode_frame(answer);
    lemma_round_trip(answer);
    lemma_decode_len(bytes);
    if chunks.len() == 0 {
        assert(chunks.flatten() =~= Seq::<u8>::empty());
        assert(pending =~= bytes);
    } else {
        let start = waiting(request, pending);
        let events = arrivals::<R>(chunks);
        let later = chunks.drop_first();
        let grown = pending + chunks[0];
        let first = step_spec(start, events[0]);
        assert(chunks.flatten() == chunks[0] + later.flatten());
        assert(grown + later.flatten() =~= bytes);
        assert(events.drop_first() =~= arrivals::<R>(later));
        assert(first == conclude(start, attempt(grown)));
        if later.len() == 0 {
            assert(later.flatten() =~= Seq::<u8>::empty());
            assert(grown =~= bytes);
            assert(bytes.skip(bytes.len() as int) =~= Seq::<u8>::empty());
            assert(first.0 == ready::<R>());
            assert(run(first.0, arrivals::<R>(later)).1 =~= Seq::<DecisionView<R>>::empty());
            assert(seq![first.1] + Seq::<DecisionView<R>>::empty() =~= waiting_decisions(
                request,
                answer,
                1,
            ));
        } else {
            assert(later[0] == chunks[1]);
            assert(later.flatten().len() >= later[0].len());
            assert(grown =~= bytes.take(grown.len() as int));
            lemma_prefix_is_incomplete(answer, grown.len() as int);
            assert forall|i: int| 0 <= i < later.len() implies (#[trigger] later[i]).len()
                > 0 by {
                assert(later[i] == chunks[i + 1]);
            }
            assert(first.0 == waiting(request, grown));
            lemma_answer_in_chunks(request, answer, grown, later);
            assert(seq![first.1] + waiting_decisions(request, answer, later.len())
                =~= waiting_decisions(request, answer, chunks.len()));
        }
    }
}

/// How far a phase is on the way from idle to closed.
pub open spec fn rank(phase: Phase) -> nat {
    match phase {
        Phase::Idle => 0,
        Phase::Running => 1,
        Phase::Draining => 2,
        Phase::Closed => 3,
    }
}

/// A request is in flight only while the manager runs, and only a request
/// in flight can be sent.
pub open spec fn consistent<R>(manager: ManagerView<R>) -> bool {
    &&& manager.in_flight is Some ==> manager.phase == Phase::Running
    &&& manager.sent ==> manager.in_flight is Some
}

/// The manager never goes back: each step leaves it in its phase or takes
/// it further on the way from idle over running and draining to closed,
/// and keeps it consistent.
pub proof fn lemma_step_goes_forward<R>(manager: ManagerView<R>, event: EventView<R>)
    ensures
        rank(manager.phase) <= rank(step_spec(manager, event).0.phase),
        consistent(manager) ==> consistent(step_spec(manager, event).0),
{
}

/// A manager that has left the running phase takes no request: each one
/// that still comes is resolved at once with `ManagerGone`, and nothing is
/// sent for it.
pub proof fn lemma_gone_after_running<R>(manager: ManagerView<R>, request: PendingView<R>)
    requires
        manager.phase == Phase::Draining || manager.phase == Phase::Closed,
    ensures
        step_spec(manager, EventView::Request(request)) == (
            manager,
            resolve(request.reply_channel, Err(ClientErrorView::ManagerGone), NextView::Continue),
        ),
{
}

/// Over any sequence of events the manager goes forward only, and stays
/// consistent.
pub proof fn lemma_run_goes_forward<R>(manager: ManagerView<R>, events: Seq<EventView<R>>)
    ensures
        rank(manager.phase) <= rank(run(manager, events).0.phase),
        consistent(manager) ==> consistent(run(manager, events).0),
    decreases events.len(),
{
    if events.len() > 0 {
        lemma_step_goes_forward(manager, events[0]);
        lemma_run_goes_forward(step_spec(manager, events[0]).0, events.drop_first());
    }
}

} // verus!
