use cicada_server::protocol::{
    is_gesture, is_transport, is_write, type_tag, GitErrorKind, IntentKind, JoinRefusal,
};
use cicada_server::socket::{
    handshake, pump_step, route, Arrival, FirstArrival, Greeting, LaneNow, PumpStep, RefusalKind,
    Step,
};
use std::collections::VecDeque;

fn hello(v: u32, own: u32) -> FirstArrival {
    FirstArrival::Envelope {
        v,
        greeting: Greeting::Hello(own),
    }
}

#[test]
fn only_a_hello_of_this_version_opens_the_session() {
    assert_eq!(handshake(&hello(1, 1)), Ok(()));
    assert_eq!(
        handshake(&hello(1, 2)),
        Err("protocol version 2 \u{2014} this server speaks 1; reload the app".to_owned())
    );
    // The envelope's own version is named when it is the wrong one.
    assert_eq!(
        handshake(&hello(7, 2)),
        Err("protocol version 7 \u{2014} this server speaks 1; reload the app".to_owned())
    );
    assert_eq!(
        handshake(&FirstArrival::Envelope {
            v: 1,
            greeting: Greeting::Other(IntentKind::PlaceNode)
        }),
        Err("the first message must be `hello`, got `place_node`".to_owned())
    );
}

#[test]
fn anything_but_a_readable_text_first_is_refused_with_its_reason() {
    assert_eq!(
        handshake(&FirstArrival::Unreadable("expected value".to_owned())),
        Err("unreadable hello: expected value".to_owned())
    );
    assert_eq!(
        handshake(&FirstArrival::NotText),
        Err("the first message must be a JSON `hello`".to_owned())
    );
    assert_eq!(
        handshake(&FirstArrival::Failed("reset".to_owned())),
        Err("socket error before hello: reset".to_owned())
    );
    assert_eq!(
        handshake(&FirstArrival::Closed),
        Err("socket closed before hello".to_owned())
    );
    assert_eq!(
        handshake(&FirstArrival::TimedOut),
        Err("no hello within 10 s".to_owned())
    );
}

fn envelope(v: u32, id: Option<&str>, kind: IntentKind) -> Arrival {
    Arrival::Envelope {
        v,
        id: id.map(str::to_owned),
        kind,
    }
}

#[test]
fn later_messages_are_queued_cancelled_or_refused() {
    assert_eq!(route(envelope(1, Some("7"), IntentKind::SetParam), false), Step::Forward);
    assert_eq!(route(envelope(1, None, IntentKind::Cancel), true), Step::Cancel);
    assert_eq!(
        route(envelope(1, None, IntentKind::Cancel), false),
        Step::Refuse {
            intent_id: None,
            kind: RefusalKind::Lease,
            message: "read-only observer \u{2014} take the lease to cancel".to_owned(),
        }
    );
    // A wrong version is refused against the intent's id, cancel or not.
    assert_eq!(
        route(envelope(3, Some("9"), IntentKind::Cancel), true),
        Step::Refuse {
            intent_id: Some("9".to_owned()),
            kind: RefusalKind::Protocol,
            message: "protocol version 3 \u{2014} this server speaks 1; reload the app".to_owned(),
        }
    );
    assert_eq!(
        route(Arrival::Unreadable("trailing comma".to_owned()), true),
        Step::Refuse {
            intent_id: None,
            kind: RefusalKind::Protocol,
            message: "unreadable intent: trailing comma".to_owned(),
        }
    );
    assert_eq!(
        route(Arrival::Binary, true),
        Step::Refuse {
            intent_id: None,
            kind: RefusalKind::Protocol,
            message: "clients send JSON intents only; binary frames flow server \u{2192} client"
                .to_owned(),
        }
    );
    assert_eq!(route(Arrival::Close, true), Step::Stop);
    assert_eq!(route(Arrival::Heartbeat, false), Step::Ignore);
    assert_eq!(RefusalKind::Protocol.tag(), "protocol");
    assert_eq!(RefusalKind::Lease.tag(), "lease");
}

/// Two lanes as the writer sees them.
struct Lanes {
    control: VecDeque<String>,
    control_open: bool,
    display: VecDeque<String>,
    display_open: bool,
}

fn now(queue: &VecDeque<String>, open: bool) -> LaneNow {
    if !queue.is_empty() {
        LaneNow::Ready
    } else if open {
        LaneNow::Pending
    } else {
        LaneNow::Drained
    }
}

impl Lanes {
    /// One writer step: the message written, or the step when nothing is.
    fn step(&mut self) -> Result<String, PumpStep> {
        match pump_step(
            now(&self.control, self.control_open),
            now(&self.display, self.display_open),
        ) {
            PumpStep::SendControl => Ok(self.control.pop_front().unwrap()),
            PumpStep::SendDisplay => Ok(self.display.pop_front().unwrap()),
            other => Err(other),
        }
    }
}

#[test]
fn the_pump_prefers_the_control_lane_and_keeps_the_display_lane_fifo() {
    let mut lanes = Lanes {
        control: VecDeque::new(),
        control_open: true,
        display: VecDeque::new(),
        display_open: true,
    };
    assert_eq!(lanes.step(), Err(PumpStep::Wait));
    // Both lanes pre-filled: control goes first, display keeps its order.
    for frame in ["frame 1", "frame 2", "frame 3"] {
        lanes.display.push_back(frame.to_owned());
    }
    lanes.control.push_back("status".to_owned());
    assert_eq!(lanes.step(), Ok("status".to_owned()));
    assert_eq!(lanes.step(), Ok("frame 1".to_owned()));
    // Frame 2 is in flight; a control text enqueued now overtakes frame 3.
    assert_eq!(lanes.step(), Ok("frame 2".to_owned()));
    lanes.control.push_back("delta".to_owned());
    assert_eq!(lanes.step(), Ok("delta".to_owned()));
    assert_eq!(lanes.step(), Ok("frame 3".to_owned()));
    // Closing one lane does not end the pump while the other still
    // speaks; closing both does.
    lanes.control_open = false;
    assert_eq!(lanes.step(), Err(PumpStep::Wait));
    lanes.display.push_back("frame 4".to_owned());
    assert_eq!(lanes.step(), Ok("frame 4".to_owned()));
    lanes.display_open = false;
    assert_eq!(lanes.step(), Err(PumpStep::Finish));
}

#[test]
fn intents_are_classed_by_kind() {
    // set_collapsed and set_scrub are gestures (a batch may hold them).
    assert!(is_gesture(IntentKind::SetCollapsed));
    assert!(is_gesture(IntentKind::SetScrub));
    assert!(!is_gesture(IntentKind::Undo));
    // Undo, redo, batch and apply_text are writes; so is every gesture
    // and the transport; reads are not.
    for kind in [
        IntentKind::Undo,
        IntentKind::Redo,
        IntentKind::Batch,
        IntentKind::ApplyText,
        IntentKind::PlaceNode,
        IntentKind::Cancel,
        IntentKind::TransportSeek,
    ] {
        assert!(is_write(kind), "{kind:?}");
    }
    for kind in [
        IntentKind::Hello,
        IntentKind::Inspect,
        IntentKind::ProbeWire,
        IntentKind::TakeLease,
        IntentKind::Screenshot,
        IntentKind::ResyncDisplay,
    ] {
        assert!(!is_write(kind), "{kind:?}");
    }
    assert!(is_transport(IntentKind::TransportPlay));
    assert!(!is_transport(IntentKind::SetParam));
    assert_eq!(type_tag(IntentKind::ApplyText), "apply_text");
    assert_eq!(type_tag(IntentKind::TransportSpeed), "transport_speed");
}

#[test]
fn git_kinds_and_join_reasons_have_snake_case_wire_names() {
    assert_eq!(GitErrorKind::GitFailed.tag(), "git_failed");
    assert_eq!(GitErrorKind::NoSuchPipeline.tag(), "no_such_pipeline");
    assert_eq!(GitErrorKind::OperationInProgress.tag(), "operation_in_progress");
    assert_eq!(GitErrorKind::Internal.tag(), "internal");
    for (reason, wire) in [
        (JoinRefusal::Unnamed, "unnamed"),
        (JoinRefusal::PathNotAllowed, "path_not_allowed"),
        (JoinRefusal::NotFound, "not_found"),
        (JoinRefusal::OpenFailed, "open_failed"),
    ] {
        assert_eq!(reason.tag(), wire);
    }
}
