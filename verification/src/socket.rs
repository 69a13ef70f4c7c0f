//! A client socket's decisions: the handshake its first message must
//! pass, what becomes of each later message, and which of the two
//! outgoing lanes is written next. Reading the socket, decoding JSON and
//! writing frames stay with the caller, which hands over plain values.

use vstd::prelude::*;
use crate::protocol::{intent_tag, type_tag, IntentKind, PROTOCOL_VERSION};
use crate::text::{decimal, decimal_string};

verus! {

/// The message an envelope carries, as far as the handshake reads it.
#[derive(Debug, Clone, Copy, PartialEq, Eq, Structural)]
pub enum Greeting {
    /// A `hello`, with the protocol version it speaks.
    Hello(u32),
    /// Any other intent.
    Other(IntentKind),
}

/// What a socket delivered first.
#[derive(Debug, Clone, PartialEq, Eq)]
pub enum FirstArrival {
    /// A text that reads as an intent envelope of version `v`.
    Envelope { v: u32, greeting: Greeting },
    /// A text that does not read as an envelope (the reader's error).
    Unreadable(String),
    /// A frame that is not text.
    NotText,
    /// The socket failed (its error).
    Failed(String),
    /// The socket closed.
    Closed,
    /// Nothing arrived within the wait.
    TimedOut,
}

/// The refusal of a protocol version `v` that is not this server's.
pub open spec fn version_refusal(v: u32) -> Seq<char> {
    "protocol version "@ + decimal(v as nat) + " \u{2014} this server speaks "@ + decimal(
        PROTOCOL_VERSION as nat,
    ) + "; reload the app"@
}

/// The verdict on a socket's first arrival: only a `hello` whose envelope
/// and own version are this server's opens the session; anything else is
/// refused with the reason.
pub open spec fn handshake_verdict(first: FirstArrival) -> Result<(), Seq<char>> {
    match first {
        FirstArrival::Envelope { v, greeting } => match greeting {
            Greeting::Hello(h) => if h == PROTOCOL_VERSION && v == PROTOCOL_VERSION {
                Ok(())
            } else {
                Err(version_refusal(if v == PROTOCOL_VERSION { h } else { v }))
            },
            Greeting::Other(kind) => Err(
                "the first message must be `hello`, got `"@ + intent_tag(kind) + "`"@,
            ),
        },
        FirstArrival::Unreadable(error) => Err("unreadable hello: "@ + error@),
        FirstArrival::NotText => Err("the first message must be a JSON `hello`"@),
        FirstArrival::Failed(error) => Err("socket error before hello: "@ + error@),
        FirstArrival::Closed => Err("socket closed before hello"@),
        FirstArrival::TimedOut => Err("no hello within 10 s"@),
    }
}

/// The texts of a verdict.
pub open spec fn verdict_view(verdict: Result<(), String>) -> Result<(), Seq<char>> {
    match verdict {
        Ok(()) => Ok(()),
        Err(reason) => Err(reason@),
    }
}

/// The refusal of version `v`.
fn refuse_version(v: u32) -> (text: String)
    ensures
        text@ == version_refusal(v),
{
    let mut text = "protocol version ".to_owned();
    text.append(decimal_string(v as u64).as_str());
    text.append(" \u{2014} this server speaks ");
    text.append(decimal_string(PROTOCOL_VERSION as u64).as_str());
    text.append("; reload the app");
    text
}

/// `prefix` followed by `rest`.
fn prefixed(prefix: &str, rest: &str) -> (text: String)
    ensures
        text@ == prefix@ + rest@,
{
    let mut text = prefix.to_owned();
    text.append(rest);
    text
}

/// Judge a socket's first arrival (see [`handshake_verdict`]): `Ok` opens
/// the session; `Err` is sent as a `protocol` error before the socket is
/// closed, with no lease taken.
pub fn handshake(first: &FirstArrival) -> (verdict: Result<(), String>)
    ensures
        verdict_view(verdict) == handshake_verdict(*first),
{
    match first {
        FirstArrival::Envelope { v, greeting } => match greeting {
            Greeting::Hello(h) => {
                if *h == PROTOCOL_VERSION && *v == PROTOCOL_VERSION {
                    Ok(())
                } else if *v == PROTOCOL_VERSION {
                    Err(refuse_version(*h))
                } else {
                    Err(refuse_version(*v))
                }
            },
            Greeting::Other(kind) => {
                let mut text = "the first message must be `hello`, got `".to_owned();
                text.append(type_tag(*kind).as_str());
                text.append("`");
                Err(text)
            },
        },
        FirstArrival::Unreadable(error) => Err(prefixed("unreadable hello: ", error.as_str())),
        FirstArrival::NotText => Err("the first message must be a JSON `hello`".to_owned()),
        FirstArrival::Failed(error) => Err(prefixed("socket error before hello: ", error.as_str())),
        FirstArrival::Closed => Err("socket closed before hello".to_owned()),
        FirstArrival::TimedOut => Err("no hello within 10 s".to_owned()),
    }
}

/// What a socket delivered after the handshake.
#[derive(Debug, Clone, PartialEq, Eq)]
pub enum Arrival {
    /// A text that reads as an intent envelope of version `v`, with the
    /// client's intent id and the intent's kind.
    Envelope { v: u32, id: Option<String>, kind: IntentKind },
    /// A text that does not read as an envelope (the reader's error).
    Unreadable(String),
    /// A binary frame.
    Binary,
    /// A close frame.
    Close,
    /// A ping or a pong.
    Heartbeat,
}

/// The kind of an error sent back to the client.
#[derive(Debug, Clone, Copy, PartialEq, Eq, Structural)]
pub enum RefusalKind {
    /// `protocol`: the message cannot be taken at all.
    Protocol,
    /// `lease`: the client does not hold the write lease.
    Lease,
}

impl RefusalKind {
    /// The kind's tag on the wire.
    pub fn tag(self) -> (tag: &'static str)
        ensures
            tag@ == refusal_tag(self),
    {
        match self {
            RefusalKind::Protocol => "protocol",
            RefusalKind::Lease => "lease",
        }
    }
}

/// The tag of a refusal kind.
pub open spec fn refusal_tag(kind: RefusalKind) -> Seq<char> {
    match kind {
        RefusalKind::Protocol => "protocol"@,
        RefusalKind::Lease => "lease"@,
    }
}

/// What to do with a message.
#[derive(Debug, Clone, PartialEq, Eq)]
pub enum Step {
    /// Send an error on the control lane (against the intent id, if any).
    Refuse { intent_id: Option<String>, kind: RefusalKind, message: String },
    /// Cancel the running evaluation now, ahead of any queued intent.
    Cancel,
    /// Queue the intent for the client's handler, in arrival order.
    Forward,
    /// Stop reading the socket.
    Stop,
    /// Nothing to do.
    Ignore,
}

/// A step as plain values.
pub enum StepView {
    Refuse { intent_id: Option<Seq<char>>, kind: RefusalKind, message: Seq<char> },
    Cancel,
    Forward,
    Stop,
    Ignore,
}

/// The plain values of a step.
pub open spec fn step_view(step: Step) -> StepView {
    match step {
        Step::Refuse { intent_id, kind, message } => StepView::Refuse {
            intent_id: match intent_id {
                Some(id) => Some(id@),
                None => None,
            },
            kind,
            message: message@,
        },
        Step::Cancel => StepView::Cancel,
        Step::Forward => StepView::Forward,
        Step::Stop => StepView::Stop,
        Step::Ignore => StepView::Ignore,
    }
}

/// A `protocol` refusal with no intent id.
pub open spec fn protocol_refusal(message: Seq<char>) -> StepView {
    StepView::Refuse { intent_id: None, kind: RefusalKind::Protocol, message }
}

/// What becomes of a message, for a client that holds the write lease
/// (`writer`) or not: a wrong version is refused against its intent id; a
/// cancel goes straight to the evaluation (refused to an observer); other
/// intents are queued; unreadable texts and binary frames are refused; a
/// close ends the reading.
pub open spec fn step_for(arrival: Arrival, writer: bool) -> StepView {
    match arrival {
        Arrival::Envelope { v, id, kind } => if v != PROTOCOL_VERSION {
            StepView::Refuse {
                intent_id: match id {
                    Some(id) => Some(id@),
                    None => None,
                },
                kind: RefusalKind::Protocol,
                message: version_refusal(v),
            }
        } else if kind == IntentKind::Cancel {
            if writer {
                StepView::Cancel
            } else {
                StepView::Refuse {
                    intent_id: None,
                    kind: RefusalKind::Lease,
                    message: "read-only observer \u{2014} take the lease to cancel"@,
                }
            }
        } else {
            StepView::Forward
        },
        Arrival::Unreadable(error) => protocol_refusal("unreadable intent: "@ + error@),
        Arrival::Binary => protocol_refusal(
            "clients send JSON intents only; binary frames flow server \u{2192} client"@,
        ),
        Arrival::Close => StepView::Stop,
        Arrival::Heartbeat => StepView::Ignore,
    }
}

/// Decide what becomes of a message (see [`step_for`]).
pub fn route(arrival: Arrival, writer: bool) -> (step: Step)
    ensures
        step_view(step) == step_for(arrival, writer),
{
    match arrival {
        Arrival::Envelope { v, id, kind } => {
            if v != PROTOCOL_VERSION {
                Step::Refuse { intent_id: id, kind: RefusalKind::Protocol, message: refuse_version(v) }
            } else if kind == IntentKind::Cancel {
                if writer {
                    Step::Cancel
                } else {
                    Step::Refuse {
                        intent_id: None,
                        kind: RefusalKind::Lease,
                        message: "read-only observer \u{2014} take the lease to cancel".to_owned(),
                    }
                }
            } else {
                Step::Forward
            }
        },
        Arrival::Unreadable(error) => Step::Refuse {
            intent_id: None,
            kind: RefusalKind::Protocol,
            message: prefixed("unreadable intent: ", error.as_str()),
        },
        Arrival::Binary => Step::Refuse {
            intent_id: None,
            kind: RefusalKind::Protocol,
            message: "clients send JSON intents only; binary frames flow server \u{2192} client".to_owned(),
        },
        Arrival::Close => Step::Stop,
        Arrival::Heartbeat => Step::Ignore,
    }
}

/// One outgoing lane as the writer sees it.
#[derive(Debug, Clone, Copy, PartialEq, Eq, Structural)]
pub enum LaneNow {
    /// A message is waiting.
    Ready,
    /// Open, nothing waiting yet.
    Pending,
    /// Closed, nothing left.
    Drained,
}

/// What the writer does next.
#[derive(Debug, Clone, Copy, PartialEq, Eq, Structural)]
pub enum PumpStep {
    /// Write the control lane's next text.
    SendControl,
    /// Write the display lane's next message.
    SendDisplay,
    /// Wait for either lane.
    Wait,
    /// Both lanes are done: stop.
    Finish,
}

/// The writer's choice: the control lane whenever it holds a message,
/// the display lane otherwise; done when both are closed and empty.
pub open spec fn pump_choice(control: LaneNow, display: LaneNow) -> PumpStep {
    if control == LaneNow::Ready {
        PumpStep::SendControl
    } else if display == LaneNow::Ready {
        PumpStep::SendDisplay
    } else if control == LaneNow::Drained && display == LaneNow::Drained {
        PumpStep::Finish
    } else {
        PumpStep::Wait
    }
}

/// Choose what the writer does next (see [`pump_choice`]).
pub fn pump_step(control: LaneNow, display: LaneNow) -> (step: PumpStep)
    ensures
        step == pump_choice(control, display),
{
    match (control, display) {
        (LaneNow::Ready, _) => PumpStep::SendControl,
        (_, LaneNow::Ready) => PumpStep::SendDisplay,
        (LaneNow::Drained, LaneNow::Drained) => PumpStep::Finish,
        _ => PumpStep::Wait,
    }
}

/// A lane holding `queued`, still open or not.
pub open spec fn lane_now<T>(queued: Seq<T>, open: bool) -> LaneNow {
    if queued.len() > 0 {
        LaneNow::Ready
    } else if open {
        LaneNow::Pending
    } else {
        LaneNow::Drained
    }
}

/// What the writer sends of two closed lanes holding `control` and
/// `display`, taking each step [`pump_choice`] names.
pub open spec fn drained<T>(control: Seq<T>, display: Seq<T>) -> Seq<T>
    decreases control.len() + display.len(),
{
    match pump_choice(lane_now(control, false), lane_now(display, false)) {
        PumpStep::SendControl => seq![control[0]] + drained(control.drop_first(), display),
        PumpStep::SendDisplay => seq![display[0]] + drained(control, display.drop_first()),
        _ => Seq::empty(),
    }
}

/// Whenever the control lane holds a text it goes first, whatever the
/// display lane holds; two closed lanes are written out as every control
/// text, in order, then every display message, in order.
pub proof fn lemma_control_first_each_lane_in_order<T>(control: Seq<T>, display: Seq<T>, display_now: LaneNow)
    ensures
        pump_choice(LaneNow::Ready, display_now) == PumpStep::SendControl,
        drained(control, display) == control + display,
    decreases control.len() + display.len(),
{
    if control.len() > 0 {
        lemma_control_first_each_lane_in_order(control.drop_first(), display, display_now);
        assert(control =~= seq![control[0]] + control.drop_first());
        assert(seq![control[0]] + (control.drop_first() + display) =~= control + display);
    } else if display.len() > 0 {
        lemma_control_first_each_lane_in_order(control, display.drop_first(), display_now);
        assert(control + display =~= display);
        assert(control + display.drop_first() =~= display.drop_first());
        assert(seq![display[0]] + display.drop_first() =~= display);
    } else {
        assert(control + display =~= Seq::<T>::empty());
    }
}

/// Only a `hello` whose envelope and own version are both this server's
/// opens a session; every other first arrival is refused.
pub proof fn lemma_only_this_version_opens(first: FirstArrival)
    ensures
        handshake_verdict(first) is Ok <==> first == (FirstArrival::Envelope {
            v: PROTOCOL_VERSION,
            greeting: Greeting::Hello(PROTOCOL_VERSION),
        }),
{
}

/// A cancel never waits in the intent queue: from the lease holder it
/// goes straight to the evaluation, from anyone else it is refused.
pub proof fn lemma_cancel_is_never_queued(id: Option<String>, writer: bool)
    ensures
        step_for(Arrival::Envelope { v: PROTOCOL_VERSION, id, kind: IntentKind::Cancel }, writer) != StepView::Forward,
        step_for(Arrival::Envelope { v: PROTOCOL_VERSION, id, kind: IntentKind::Cancel }, writer)
            == StepView::Cancel <==> writer,
{
}

} // verus!
