use std::collections::VecDeque;
use std::sync::Arc;

use netservices::action::Action;
use netservices::ident::{is_above, same};
use netservices::service::conflict::{is_among, resolve};
use netservices::service::lifecycle::{ReactorError, ResourceType};
use netservices::service::listener::{ListenerAction, ListenerEvent};
use netservices::service::state::{Callback, Metrics, SessionEvent};
use netservices::service::Service;
use netservices::transport::cursor::CursorDeque;
use netservices::transport::frame::{ByteSink, Frame, NoRoom};
use netservices::transport::remotes::{
    DisconnectReason, FramingError, Outbound, Remote, Remotes, ServiceTypes,
};
use netservices::Direction;

/// One length byte, then as many bytes. A length of 255 is malformed.
#[derive(Clone, PartialEq, Debug)]
struct Word(Vec<u8>);

impl Frame for Word {
    type Error = String;

    fn unmarshall(reader: &mut CursorDeque<'_>) -> Result<Option<Self>, String> {
        let len = match reader.peek(1).first() {
            None => return Ok(None),
            Some(255) => return Err("no such length".to_string()),
            Some(len) => *len as usize,
        };
        if reader.peek(len + 1).len() < len + 1 {
            return Ok(None);
        }
        Ok(Some(Word(reader.read(len + 1)[1..].to_vec())))
    }

    fn marshall<W: ByteSink>(&self, writer: &mut W) -> Result<(), String> {
        writer.write_all(&[self.0.len() as u8]);
        writer.write_all(&self.0);
        Ok(())
    }
}

struct Toy;

impl ServiceTypes for Toy {
    type NodeId = u64;
    type Addr = &'static str;
    type SocketAddr = u16;
    type Listener = &'static str;
    type Transport = &'static str;
    type InFrame = Word;
    type Error = &'static str;
    type Timestamp = u32;
}

fn why(reason: &DisconnectReason<Toy>) -> String {
    match reason {
        DisconnectReason::SelfConnection => "self".to_string(),
        DisconnectReason::Conflict => "conflict".to_string(),
        DisconnectReason::Framing(FramingError::NoRoom) => "no room".to_string(),
        DisconnectReason::Framing(FramingError::Unparsable(error)) => format!("framing: {}", error),
        DisconnectReason::Connection(None) => "dropped".to_string(),
        DisconnectReason::Connection(Some(error)) => format!("error: {}", error),
    }
}

fn told(call: &Callback<Toy>) -> String {
    match call {
        Callback::Listening { socket } => format!("listening {}", socket),
        Callback::AcceptFailure { socket, error, time } => {
            format!("accept failure {} {} {}", socket, error, time)
        }
        Callback::Established { remote_id, addr, direction, time } => {
            format!("established {} {} {} {}", remote_id, addr, direction.display(), time)
        }
        Callback::Disconnected { remote_id, direction, reason } => {
            format!("disconnected {} {} {}", remote_id, direction.display(), why(reason))
        }
        Callback::Unbound { listener } => format!("unbound {}", listener),
        Callback::Frame { res_id, frame } => format!("frame {} {:?}", res_id, frame.0),
        Callback::FrameUnparsable { res_id, error } => format!("unparsable {} {}", res_id, error),
    }
}

fn all_told(calls: &[Callback<Toy>]) -> Vec<String> {
    calls.iter().map(told).collect()
}

fn asked(action: &Action<&'static str, &'static str>) -> String {
    match action {
        Action::RegisterListener(listener) => format!("register listener {}", listener),
        Action::RegisterTransport(transport) => format!("register transport {}", transport),
        Action::UnregisterListener(id) => format!("unregister listener {}", id),
        Action::UnregisterTransport(id) => format!("unregister transport {}", id),
        Action::Send(id, bytes) => format!("send {} {:?}", id, bytes),
        Action::SetTimer(secs, nanos) => format!("timer {} {}", secs, nanos),
        Action::Terminate => "terminate".to_string(),
    }
}

fn all_asked(service: &mut Service<Toy>) -> Vec<String> {
    let mut actions = Vec::new();
    while let Some(action) = service.next(VecDeque::new()) {
        actions.push(asked(&action));
    }
    actions
}

/// Takes in a connection over `fd`, known to the reactor as `res_id`.
fn accept(service: &mut Service<Toy>, fd: i32, res_id: u64) {
    let event = ListenerEvent::TransportReady { fd, remote: "them", transport: Some("tcp") };
    assert!(matches!(service.handle_listener_event(1, event, 0), ListenerAction::Registering));
    assert!(service.handle_registered(fd, res_id, ResourceType::Transport).is_none());
    all_asked(service);
}

/// Starts an attempt to connect to `remote_id` over `fd`, known to the reactor as `res_id`.
fn attempt(service: &mut Service<Toy>, fd: i32, res_id: u64, remote_id: u64) {
    service.outbound.insert(fd, Outbound { res_id: None, addr: "there", remote_id });
    assert!(service.handle_registered(fd, res_id, ResourceType::Transport).is_none());
}

fn establish(service: &mut Service<Toy>, fd: i32, res_id: u64, remote_id: u64) -> Vec<String> {
    let event = SessionEvent::Established(Some(remote_id));
    all_told(&service.handle_transport_event(fd, res_id, event, 100))
}

fn receive(service: &mut Service<Toy>, res_id: u64, data: &[u8]) -> Vec<String> {
    all_told(&service.handle_transport_event(0, res_id, SessionEvent::Data(data.to_vec()), 100))
}

/// A service of node 50 with a session over resource 20, opened by node 70.
fn in_session() -> Service<Toy> {
    let mut service = Service::new(50);
    accept(&mut service, 4, 20);
    assert_eq!(establish(&mut service, 4, 20, 70), vec!["established 70 them inbound 100"]);
    service
}

fn handover(service: &mut Service<Toy>, res_id: u64, fd: i32) -> Option<String> {
    service.handover_transport(res_id, fd).map(|call| told(&call))
}

const NOTHING: Vec<String> = Vec::new();

#[test]
fn identities_are_compared() {
    assert!(same(&7u64, &7u64));
    assert!(!same(&7u64, &8u64));
    assert!(is_above(&8u64, &7u64));
    assert!(!is_above(&7u64, &7u64));
    assert!(!is_above(&7u64, &8u64));
}

#[test]
fn new_service_asks_for_nothing() {
    let mut service: Service<Toy> = Service::new(50);
    assert_eq!(service.local_id, 50);
    assert_eq!(all_asked(&mut service), NOTHING);
}

#[test]
fn metrics_start_at_zero() {
    let metrics = Metrics::default();
    assert_eq!(metrics.bytes_sent, 0);
    assert_eq!(metrics.bytes_received, 0);
    assert_eq!(metrics.messages_sent, 0);
    assert_eq!(metrics.messages_received, 0);
    assert_eq!(metrics.inbound_connection_attempts, 0);
    assert_eq!(metrics.outbound_connection_attempts, 0);
    assert_eq!(metrics.disconnects, 0);
}

#[test]
fn listener_is_polled_and_reported() {
    let mut service: Service<Toy> = Service::new(50);
    service.listen(3, 8080, "socket");
    assert_eq!(all_asked(&mut service), vec!["register listener socket"]);
    let call = service.handle_registered(3, 1, ResourceType::Listener);
    assert_eq!(told(&call.unwrap()), "listening 8080");
    assert!(service.listening.is_empty());
}

#[test]
fn accept_failure_is_reported_at_any_time() {
    let mut service: Service<Toy> = Service::new(50);
    service.listen(3, 8080, "socket");
    match service.handle_listener_event(3, ListenerEvent::Failure { error: "full" }, 9) {
        ListenerAction::Report(call) => assert_eq!(told(&call), "accept failure 8080 full 9"),
        _ => panic!("a failure is reported"),
    }
    let _ = service.handle_registered(3, 1, ResourceType::Listener);
    match service.handle_listener_event(3, ListenerEvent::Failure { error: "full" }, 10) {
        ListenerAction::Report(call) => assert_eq!(told(&call), "accept failure 8080 full 10"),
        _ => panic!("a failure is reported"),
    }
}

#[test]
fn unbound_listener_is_handed_to_the_controller() {
    let mut service: Service<Toy> = Service::new(50);
    service.listen(3, 8080, "socket");
    let _ = service.handle_registered(3, 1, ResourceType::Listener);
    assert_eq!(told(&service.handover_listener(3, "socket")), "unbound socket");
    assert!(service.bound.is_empty());
}

#[test]
fn accepted_connection_is_taken_in_step_by_step() {
    let mut service: Service<Toy> = Service::new(50);
    let accepted = ListenerEvent::Accepted { fd: 4, remote: Some("them") };
    match service.handle_listener_event(3, accepted, 9) {
        ListenerAction::Consult { fd, remote, time } => {
            assert_eq!((fd, remote, time), (4, "them", 9))
        }
        _ => panic!("the controller is asked"),
    }
    let wanted = ListenerEvent::Consulted { fd: 4, remote: "them", accept: true };
    match service.handle_listener_event(3, wanted, 9) {
        ListenerAction::EstablishSession { fd, remote, time } => {
            assert_eq!((fd, remote, time), (4, "them", 9))
        }
        _ => panic!("a session is set up"),
    }
    let ready = ListenerEvent::SessionReady { fd: 4, remote: "them", ready: true };
    match service.handle_listener_event(3, ready, 9) {
        ListenerAction::CreateTransport { fd, remote, direction } => {
            assert_eq!((fd, remote, direction), (4, "them", Direction::Inbound))
        }
        _ => panic!("a transport is made"),
    }
    assert!(service.inbound.is_empty());
    let made = ListenerEvent::TransportReady { fd: 4, remote: "them", transport: Some("tcp") };
    assert!(matches!(service.handle_listener_event(3, made, 9), ListenerAction::Registering));
    assert_eq!(all_asked(&mut service), vec!["register transport tcp"]);
    assert_eq!(service.inbound[&4].res_id, None);
    assert_eq!(service.inbound[&4].addr, "them");
    assert!(service.handle_registered(4, 20, ResourceType::Transport).is_none());
    assert_eq!(service.inbound[&4].res_id, Some(20));
}

#[test]
fn accepted_connection_is_dropped_at_the_first_bad_answer() {
    let mut service: Service<Toy> = Service::new(50);
    let bad = vec![
        ListenerEvent::Accepted { fd: 4, remote: None },
        ListenerEvent::Consulted { fd: 4, remote: "them", accept: false },
        ListenerEvent::SessionReady { fd: 4, remote: "them", ready: false },
        ListenerEvent::TransportReady { fd: 4, remote: "them", transport: None },
    ];
    for event in bad {
        assert!(matches!(service.handle_listener_event(3, event, 9), ListenerAction::Drop));
    }
    assert!(service.inbound.is_empty());
    assert_eq!(all_asked(&mut service), NOTHING);
}

#[test]
fn session_of_an_accepted_connection_is_reported() {
    let mut service = in_session();
    assert!(service.inbound.is_empty());
    assert_eq!(service.metrics[&70].inbound_connection_attempts, 1);
    assert_eq!(service.metrics[&70].outbound_connection_attempts, 0);
    assert_eq!(service.remotes.active(), vec![(20, 70, Direction::Inbound)]);
    assert_eq!(all_asked(&mut service), NOTHING);
}

#[test]
fn session_of_an_attempt_is_reported() {
    let mut service: Service<Toy> = Service::new(50);
    attempt(&mut service, 5, 21, 70);
    assert_eq!(establish(&mut service, 5, 21, 70), vec!["established 70 there outbound 100"]);
    assert!(service.outbound.is_empty());
    assert!(service.metrics.is_empty());
}

#[test]
fn session_with_itself_is_closed() {
    let mut service: Service<Toy> = Service::new(50);
    accept(&mut service, 4, 20);
    assert_eq!(establish(&mut service, 4, 20, 50), NOTHING);
    assert_eq!(all_asked(&mut service), vec!["unregister transport 20"]);
    assert!(service.remotes.active().is_empty());
    assert_eq!(handover(&mut service, 20, 4), None);
    assert!(service.inbound.is_empty());
}

#[test]
fn session_of_an_unknown_connection_is_ignored() {
    let mut service: Service<Toy> = Service::new(50);
    assert_eq!(establish(&mut service, 4, 20, 70), NOTHING);
    assert_eq!(all_asked(&mut service), NOTHING);
    assert!(service.remotes.active().is_empty());
}

#[test]
fn conflicts_are_resolved_by_precedence() {
    let (inbound, outbound) = (Direction::Inbound, Direction::Outbound);
    assert_eq!(resolve(true, 9, inbound, &vec![(5, outbound)]), vec![9]);
    assert_eq!(resolve(false, 9, inbound, &vec![(5, outbound)]), vec![5]);
    assert_eq!(resolve(true, 9, outbound, &vec![(5, inbound)]), vec![5]);
    assert_eq!(resolve(false, 9, outbound, &vec![(5, inbound)]), vec![9]);
    for precedence in [true, false] {
        assert_eq!(resolve(precedence, 9, inbound, &vec![(5, inbound)]), vec![9]);
        assert_eq!(resolve(precedence, 5, inbound, &vec![(9, inbound)]), vec![9]);
        assert_eq!(resolve(precedence, 9, outbound, &vec![(5, outbound)]), vec![9]);
        assert_eq!(resolve(precedence, 5, outbound, &vec![(9, outbound)]), vec![9]);
        assert_eq!(resolve(precedence, 5, outbound, &vec![]), Vec::<u64>::new());
    }
    let mixed = vec![(5, inbound), (12, outbound), (7, outbound)];
    assert_eq!(resolve(true, 9, outbound, &mixed), vec![5, 12, 9]);
}

#[test]
fn ids_are_found() {
    assert!(is_among(&vec![3, 4], 4));
    assert!(!is_among(&vec![3, 4], 5));
    assert!(!is_among(&vec![], 5));
}

#[test]
fn both_ends_keep_the_same_connection() {
    // Node 70 has precedence over node 50. Its connection is 1 at itself and 8 at the other end;
    // the connection of node 50 is 2 at node 70 and 9 at itself.
    let (inbound, outbound) = (Direction::Inbound, Direction::Outbound);
    let precedence = is_above(&70u64, &50u64);
    assert_eq!(resolve(precedence, 2, inbound, &vec![(1, outbound)]), vec![2]);
    assert_eq!(resolve(precedence, 1, outbound, &vec![(2, inbound)]), vec![2]);
    let precedence = is_above(&50u64, &70u64);
    assert_eq!(resolve(precedence, 8, inbound, &vec![(9, outbound)]), vec![9]);
    assert_eq!(resolve(precedence, 9, outbound, &vec![(8, inbound)]), vec![9]);
}

#[test]
fn accepted_connection_gives_way_to_our_attempt() {
    let mut service: Service<Toy> = Service::new(50);
    attempt(&mut service, 5, 21, 30);
    accept(&mut service, 4, 22);
    assert_eq!(establish(&mut service, 4, 22, 30), NOTHING);
    assert_eq!(all_asked(&mut service), vec!["unregister transport 22"]);
    assert!(service.remotes.active().is_empty());
    assert_eq!(service.metrics[&30].inbound_connection_attempts, 1);
    assert_eq!(establish(&mut service, 5, 21, 30), vec!["established 30 there outbound 100"]);
}

#[test]
fn our_attempt_gives_way_to_an_accepted_connection() {
    let mut service: Service<Toy> = Service::new(50);
    attempt(&mut service, 5, 21, 70);
    accept(&mut service, 4, 22);
    assert_eq!(
        establish(&mut service, 4, 22, 70),
        vec!["disconnected 70 outbound conflict", "established 70 them inbound 100"]
    );
    assert_eq!(all_asked(&mut service), vec!["unregister transport 21"]);
    assert_eq!(handover(&mut service, 21, 5), Some("disconnected 70 outbound dropped".to_string()));
    assert!(service.outbound.is_empty());
}

#[test]
fn attempt_that_the_reactor_does_not_know_is_no_conflict() {
    let mut service: Service<Toy> = Service::new(50);
    service.outbound.insert(5, Outbound { res_id: None, addr: "there", remote_id: 30 });
    accept(&mut service, 4, 22);
    assert_eq!(establish(&mut service, 4, 22, 30), vec!["established 30 them inbound 100"]);
    assert_eq!(all_asked(&mut service), NOTHING);
}

#[test]
fn old_session_is_reported_before_the_new_one() {
    let mut service: Service<Toy> = Service::new(50);
    accept(&mut service, 4, 20);
    assert_eq!(establish(&mut service, 4, 20, 30), vec!["established 30 them inbound 100"]);
    attempt(&mut service, 5, 21, 30);
    assert_eq!(
        establish(&mut service, 5, 21, 30),
        vec!["disconnected 30 inbound conflict", "established 30 there outbound 100"]
    );
    assert_eq!(all_asked(&mut service), vec!["unregister transport 20"]);
    assert_eq!(service.remotes.active(), vec![(21, 30, Direction::Outbound)]);
    assert_eq!(handover(&mut service, 20, 4), Some("disconnected 30 inbound conflict".to_string()));
}

#[test]
fn newer_connection_of_the_same_side_is_closed() {
    let mut service = in_session();
    accept(&mut service, 5, 22);
    assert_eq!(establish(&mut service, 5, 22, 70), NOTHING);
    assert_eq!(all_asked(&mut service), vec!["unregister transport 22"]);
    accept(&mut service, 6, 10);
    assert_eq!(
        establish(&mut service, 6, 10, 70),
        vec!["disconnected 70 inbound conflict", "established 70 them inbound 100"]
    );
    assert_eq!(service.remotes.active(), vec![(10, 70, Direction::Inbound)]);
    assert_eq!(service.metrics[&70].inbound_connection_attempts, 3);
}

#[test]
fn sessions_with_other_nodes_are_no_conflict() {
    let mut service = in_session();
    accept(&mut service, 5, 22);
    assert_eq!(establish(&mut service, 5, 22, 71), vec!["established 71 them inbound 100"]);
    let mut active = service.remotes.active();
    active.sort();
    assert_eq!(active, vec![(20, 70, Direction::Inbound), (22, 71, Direction::Inbound)]);
    assert_eq!(service.conflicting(5, 30, 70), vec![(20, Direction::Inbound)]);
    assert_eq!(service.conflicting(5, 20, 70), vec![]);
}

#[test]
fn closing_a_list_tells_of_each() {
    let mut service = in_session();
    let calls = service.close_conflicting(&vec![20, 21, 20]);
    assert_eq!(
        all_told(&calls),
        vec!["disconnected 70 inbound conflict", "disconnected 70 inbound conflict"]
    );
    assert_eq!(
        all_asked(&mut service),
        vec!["unregister transport 20", "unregister transport 21"]
    );
}

#[test]
fn frames_are_delivered_in_order() {
    let mut service = in_session();
    assert_eq!(receive(&mut service, 20, &[1, 9, 0, 2, 5]), vec!["frame 20 [9]", "frame 20 []"]);
    assert_eq!(service.metrics[&70].bytes_received, 5);
    assert_eq!(receive(&mut service, 20, &[6]), vec!["frame 20 [5, 6]"]);
    assert_eq!(service.metrics[&70].bytes_received, 6);
    assert_eq!(receive(&mut service, 20, &[]), NOTHING);
    assert_eq!(all_asked(&mut service), NOTHING);
}

#[test]
fn pieces_of_data_give_the_same_frames() {
    let stream = [1, 9, 0, 2, 5, 6, 3, 1];
    for cut in 0..stream.len() + 1 {
        let mut service = in_session();
        let mut frames = receive(&mut service, 20, &stream[..cut]);
        frames.extend(receive(&mut service, 20, &stream[cut..]));
        assert_eq!(frames, vec!["frame 20 [9]", "frame 20 []", "frame 20 [5, 6]"]);
        assert_eq!(service.metrics[&70].bytes_received, 8);
        assert_eq!(receive(&mut service, 20, &[2, 3]), vec!["frame 20 [1, 2, 3]"]);
    }
}

#[test]
fn unparsable_bytes_end_the_session() {
    let mut service = in_session();
    let event = SessionEvent::Data(vec![1, 9, 255, 1]);
    let calls = service.handle_transport_event(4, 20, event, 100);
    assert_eq!(all_told(&calls), vec!["frame 20 [9]", "unparsable 20 no such length"]);
    assert_eq!(all_asked(&mut service), vec!["unregister transport 20"]);
    assert_eq!(receive(&mut service, 20, &[1, 9]), NOTHING);
    assert_eq!(service.metrics[&70].bytes_received, 4);
    match service.handover_transport(20, 4) {
        Some(Callback::Disconnected { remote_id, direction, reason }) => {
            assert_eq!((remote_id, direction), (70, Direction::Inbound));
            match (reason, &calls[1]) {
                (
                    DisconnectReason::Framing(FramingError::Unparsable(reported)),
                    Callback::FrameUnparsable { error, .. },
                ) => assert!(Arc::ptr_eq(&reported, error)),
                _ => panic!("the error is the reason"),
            }
        }
        _ => panic!("the controller is told"),
    }
}

#[test]
fn bytes_without_room_end_the_session() {
    let mut service = in_session();
    assert_eq!(all_told(&service.data_buffered(20, Err(NoRoom))), NOTHING);
    assert_eq!(all_asked(&mut service), vec!["unregister transport 20"]);
    assert_eq!(handover(&mut service, 20, 4), Some("disconnected 70 inbound no room".to_string()));
}

#[test]
fn buffered_bytes_are_framed() {
    let mut service = in_session();
    assert_eq!(receive(&mut service, 20, &[1]), NOTHING);
    assert_eq!(all_told(&service.data_buffered(20, Ok(()))), NOTHING);
    assert_eq!(receive(&mut service, 20, &[4]), vec!["frame 20 [4]"]);
}

#[test]
fn data_without_a_session_is_dropped() {
    let mut service: Service<Toy> = Service::new(50);
    assert_eq!(receive(&mut service, 20, &[1, 9]), NOTHING);
    assert!(service.metrics.is_empty());
    accept(&mut service, 4, 20);
    assert_eq!(receive(&mut service, 20, &[1, 9]), NOTHING);
    assert!(service.metrics.is_empty());
}

#[test]
fn terminated_session_is_reported_at_handover() {
    let mut service = in_session();
    let calls = service.handle_transport_event(4, 20, SessionEvent::Terminated("reset"), 100);
    assert_eq!(all_told(&calls), NOTHING);
    assert_eq!(all_asked(&mut service), vec!["unregister transport 20"]);
    assert_eq!(
        handover(&mut service, 20, 4),
        Some("disconnected 70 inbound error: reset".to_string())
    );
    assert_eq!(handover(&mut service, 20, 4), None);
}

#[test]
fn first_reason_counts() {
    let mut service = in_session();
    let gone = Some((70, Direction::Inbound));
    assert_eq!(service.disconnect(20, DisconnectReason::Conflict), gone);
    assert_eq!(service.disconnect(20, DisconnectReason::SelfConnection), gone);
    assert_eq!(all_asked(&mut service), vec!["unregister transport 20"]);
    assert_eq!(handover(&mut service, 20, 4), Some("disconnected 70 inbound conflict".to_string()));
}

#[test]
fn connection_without_a_session_is_disconnected() {
    let mut service: Service<Toy> = Service::new(50);
    attempt(&mut service, 5, 21, 70);
    accept(&mut service, 4, 20);
    let attempt = service.disconnect(21, DisconnectReason::connection());
    assert_eq!(attempt, Some((70, Direction::Outbound)));
    assert_eq!(service.disconnect(20, DisconnectReason::connection()), None);
    assert_eq!(
        all_asked(&mut service),
        vec!["unregister transport 21", "unregister transport 20"]
    );
}

#[test]
fn connection_that_never_had_a_session_is_forgotten() {
    let mut service: Service<Toy> = Service::new(50);
    attempt(&mut service, 5, 21, 70);
    accept(&mut service, 4, 20);
    assert!(service.cleanup(4).is_none());
    assert!(service.inbound.is_empty());
    let call = service.cleanup(5);
    assert_eq!(told(&call.unwrap()), "disconnected 70 outbound dropped");
    assert!(service.outbound.is_empty());
    assert!(service.cleanup(5).is_none());
}

#[test]
fn dropped_transport_is_reported() {
    let mut service = in_session();
    let dropped = ReactorError::TransportDisconnect { id: 20, fd: 4 };
    assert_eq!(
        told(&service.handle_error(dropped).unwrap()),
        "disconnected 70 inbound dropped"
    );
    assert!(service.remotes.active().is_empty());
    assert!(service.handle_error(dropped).is_none());
    attempt(&mut service, 5, 21, 70);
    let dropped = ReactorError::TransportDisconnect { id: 21, fd: 5 };
    assert_eq!(
        told(&service.handle_error(dropped).unwrap()),
        "disconnected 70 outbound dropped"
    );
    assert_eq!(all_asked(&mut service), NOTHING);
}

#[test]
fn dropped_transport_without_a_node_is_not_reported() {
    let mut service: Service<Toy> = Service::new(50);
    service.remotes.insert(
        20,
        Remote::Disconnecting {
            remote_id: None,
            direction: Direction::Inbound,
            reason: DisconnectReason::Conflict,
        },
    );
    assert_eq!(service.disconnect(20, DisconnectReason::Conflict), None);
    let dropped = ReactorError::TransportDisconnect { id: 20, fd: 4 };
    assert!(service.handle_error(dropped).is_none());
    assert!(service.remotes.get(&20).is_none());
}

#[test]
fn other_errors_change_nothing() {
    let mut service = in_session();
    assert!(service.handle_error(ReactorError::Poll).is_none());
    assert!(service.handle_error(ReactorError::ListenerDisconnect { id: 20 }).is_none());
    assert_eq!(service.remotes.active(), vec![(20, 70, Direction::Inbound)]);
    assert_eq!(all_asked(&mut service), NOTHING);
}

#[test]
fn unknown_transport_is_registered_without_effect() {
    let mut service: Service<Toy> = Service::new(50);
    assert!(service.handle_registered(4, 20, ResourceType::Transport).is_none());
    assert!(service.inbound.is_empty());
    assert!(service.outbound.is_empty());
}

#[test]
fn actions_of_the_controller_come_after_those_asked_before() {
    let mut service: Service<Toy> = Service::new(50);
    service.listen(3, 8080, "socket");
    let _ = service.disconnect(20, DisconnectReason::Conflict);
    let first = service.next(VecDeque::from(vec![Action::Send(7, vec![1]), Action::Terminate]));
    assert_eq!(asked(&first.unwrap()), "register listener socket");
    let second = service.next(VecDeque::from(vec![Action::SetTimer(5, 0)]));
    assert_eq!(asked(&second.unwrap()), "unregister transport 20");
    assert_eq!(all_asked(&mut service), vec!["send 7 [1]", "terminate", "timer 5 0"]);
}

#[test]
fn remotes_are_kept_by_resource() {
    let mut remotes: Remotes<Toy> = Remotes::new();
    assert!(remotes.get(&1).is_none());
    remotes.insert(1, Remote::connected(70, "them", Direction::Inbound));
    remotes.insert(
        2,
        Remote::Disconnecting {
            remote_id: Some(71),
            direction: Direction::Outbound,
            reason: DisconnectReason::SelfConnection,
        },
    );
    let first = remotes.get(&1).unwrap();
    assert_eq!(first.remote_id(), Some(70));
    assert_eq!(first.direction(), Direction::Inbound);
    let second = remotes.get(&2).unwrap();
    assert_eq!(second.remote_id(), Some(71));
    assert_eq!(second.direction(), Direction::Outbound);
    assert_eq!(remotes.active(), vec![(1, 70, Direction::Inbound)]);
    assert!(remotes.remove(&1).is_some());
    assert!(remotes.remove(&1).is_none());
    assert!(remotes.active().is_empty());
}

#[test]
fn no_node_has_two_sessions() {
    // Three connections with one node, opened by either side, established in any order.
    let orders = [[0, 1, 2], [0, 2, 1], [1, 0, 2], [1, 2, 0], [2, 0, 1], [2, 1, 0]];
    for sides in 0..8u32 {
        for order in orders {
            for remote_id in [30, 70] {
                let mut service: Service<Toy> = Service::new(50);
                for k in 0..3u32 {
                    if sides & (1 << k) == 0 {
                        accept(&mut service, k as i32, 20 + k as u64);
                    } else {
                        attempt(&mut service, k as i32, 20 + k as u64, remote_id);
                    }
                }
                for k in order {
                    let told = establish(&mut service, k, 20 + k as u64, remote_id);
                    let active = service.remotes.active();
                    assert!(active.len() <= 1);
                    if told.iter().any(|call| call.starts_with("established")) {
                        assert_eq!(active[0].0, 20 + k as u64);
                        assert_eq!(active[0].1, remote_id);
                    }
                }
            }
        }
    }
}

#[test]
fn counters_only_grow() {
    let mut service = in_session();
    receive(&mut service, 20, &[1, 9]);
    let before = service.metrics[&70];
    let _ = service.handle_transport_event(4, 20, SessionEvent::Terminated("reset"), 100);
    receive(&mut service, 20, &[1, 9]);
    let _ = handover(&mut service, 20, 4);
    accept(&mut service, 4, 21);
    establish(&mut service, 4, 21, 70);
    receive(&mut service, 21, &[7]);
    let after = service.metrics[&70];
    assert_eq!(before.bytes_received, 2);
    assert_eq!(after.bytes_received, 3);
    assert_eq!(after.inbound_connection_attempts, before.inbound_connection_attempts + 1);
    assert_eq!(after.disconnects, 0);
    assert_eq!(service.local_id, 50);
}

#[test]
fn two_services_keep_the_same_connection() {
    // Node 70 and node 30 connect to each other. Each sees either connection established first.
    for high_sees_own_first in [true, false] {
        for low_sees_own_first in [true, false] {
            let mut kept = Vec::new();
            for (node, other, own_first) in
                [(70, 30, high_sees_own_first), (30, 70, low_sees_own_first)]
            {
                let mut service: Service<Toy> = Service::new(node);
                if own_first {
                    attempt(&mut service, 1, 11, other);
                    establish(&mut service, 1, 11, other);
                    accept(&mut service, 2, 12);
                    establish(&mut service, 2, 12, other);
                } else {
                    accept(&mut service, 2, 12);
                    establish(&mut service, 2, 12, other);
                    attempt(&mut service, 1, 11, other);
                    establish(&mut service, 1, 11, other);
                }
                let closed = if node == 70 { 12 } else { 11 };
                assert_eq!(
                    all_asked(&mut service),
                    vec![format!("unregister transport {}", closed)]
                );
                kept.push(service.remotes.active());
            }
            assert_eq!(kept[0], vec![(11, 30, Direction::Outbound)]);
            assert_eq!(kept[1], vec![(12, 70, Direction::Inbound)]);
        }
    }
}

#[test]
fn pieces_of_bytes_that_are_no_frame_are_told_the_same() {
    let stream = [1, 9, 0, 255, 5, 6];
    for cut in 0..stream.len() + 1 {
        let mut service = in_session();
        let mut calls = receive(&mut service, 20, &stream[..cut]);
        calls.extend(receive(&mut service, 20, &stream[cut..]));
        assert_eq!(calls, vec!["frame 20 [9]", "frame 20 []", "unparsable 20 no such length"]);
        assert_eq!(all_asked(&mut service), vec!["unregister transport 20"]);
        // What comes after the failure is not counted.
        let counted = if cut > 3 { cut } else { stream.len() };
        assert_eq!(service.metrics[&70].bytes_received, counted);
    }
}

#[test]
fn end_of_a_session_is_taken_in_without_frames() {
    let mut service: Service<Toy> = Service::new(50);
    let calls = service.handle_transport_event(4, 20, SessionEvent::Terminated("reset"), 1);
    assert_eq!(all_told(&calls), NOTHING);
    assert_eq!(all_asked(&mut service), vec!["unregister transport 20"]);
}
