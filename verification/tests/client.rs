use std::cell::Cell;

use netservices::client::factory::{
    run_step, Factory, FactoryAction, FactoryCmd, FactoryEvent, SessionFactory,
};
use netservices::client::unary::{ClientAction, ClientEvent, Cmd, PendingRequest, Request, Service};
use netservices::service::lifecycle::ResourceType;
use netservices::transport::cursor::CursorDeque;
use netservices::transport::frame::{ByteSink, Frame};
use netservices::Direction;

/// A question: the byte 1, then its number.
#[derive(Clone, PartialEq, Debug)]
struct Ask(u8);

/// An answer: the byte 2, then two bytes.
#[derive(Clone, PartialEq, Debug)]
struct Answer(u8, u8);

impl Frame for Ask {
    type Error = u8;

    fn unmarshall(reader: &mut CursorDeque<'_>) -> Result<Option<Self>, u8> {
        match reader.peek(2)[..] {
            [1, number] => {
                let _ = reader.read(2);
                Ok(Some(Ask(number)))
            }
            [1] | [] => Ok(None),
            [other, ..] => Err(other),
        }
    }

    fn marshall<W: ByteSink>(&self, writer: &mut W) -> Result<(), u8> {
        writer.write_all(&[1, self.0]);
        Ok(())
    }
}

impl Frame for Answer {
    type Error = u8;

    fn unmarshall(reader: &mut CursorDeque<'_>) -> Result<Option<Self>, u8> {
        match reader.peek(3)[..] {
            [2, a, b] => {
                let _ = reader.read(3);
                Ok(Some(Answer(a, b)))
            }
            [2, _] | [2] | [] => Ok(None),
            [other, ..] => Err(other),
        }
    }

    fn marshall<W: ByteSink>(&self, writer: &mut W) -> Result<(), u8> {
        writer.write_all(&[2, self.0, self.1]);
        Ok(())
    }
}

impl Request for Ask {
    type Response = Answer;
}

type Client = Service<&'static str, Ask>;

fn pending(number: u8, awaits_reply: bool) -> PendingRequest<Ask> {
    PendingRequest { request: Ask(number), awaits_reply }
}

/// A client whose request is sent over the transport `id`.
fn sent(number: u8, awaits_reply: bool, id: u64) -> Client {
    let mut client = Client::new();
    client.handle_command(Cmd::Send {
        fd: 3,
        transport: "tcp",
        pending: pending(number, awaits_reply),
    });
    assert!(matches!(client.next(), Some(ClientAction::RegisterTransport("tcp"))));
    client.handle_registered(3, id, ResourceType::Transport);
    match client.next() {
        Some(ClientAction::Send(to, bytes)) => {
            assert_eq!(to, id);
            assert_eq!(bytes, vec![1, number]);
        }
        _ => panic!("the request is to be sent"),
    }
    assert!(client.next().is_none());
    client
}

#[test]
fn new_client_asks_for_nothing() {
    assert!(Client::new().next().is_none());
}

#[test]
fn request_is_sent_and_answered() {
    let mut client = sent(7, true, 20);
    assert!(client.handle_transport_event(20, ClientEvent::Established).is_none());
    let reply = client.handle_transport_event(20, ClientEvent::Data(vec![2, 8, 9]));
    assert_eq!(reply, Some((Ask(7), Answer(8, 9))));
    assert!(matches!(client.next(), Some(ClientAction::UnregisterTransport(20))));
    assert!(client.next().is_none());
}

#[test]
fn only_the_first_reply_counts() {
    let mut client = sent(7, true, 20);
    let reply = client.handle_transport_event(20, ClientEvent::Data(vec![2, 8, 9, 2, 5, 5]));
    assert_eq!(reply, Some((Ask(7), Answer(8, 9))));
    let again = client.handle_transport_event(20, ClientEvent::Data(vec![2, 6, 6]));
    assert_eq!(again, None);
    assert!(matches!(client.next(), Some(ClientAction::UnregisterTransport(20))));
    assert!(client.next().is_none());
}

#[test]
fn request_without_reply_hears_nothing() {
    let mut client = sent(7, false, 20);
    let reply = client.handle_transport_event(20, ClientEvent::Data(vec![2, 8, 9]));
    assert_eq!(reply, None);
    assert!(client.next().is_none());
}

#[test]
fn partial_reply_closes_the_inbox() {
    let mut client = sent(7, true, 20);
    assert_eq!(client.handle_transport_event(20, ClientEvent::Data(vec![2, 8])), None);
    assert!(client.next().is_none());
    assert_eq!(client.handle_transport_event(20, ClientEvent::Data(vec![9])), None);
    assert!(client.next().is_none());
}

#[test]
fn unparsable_reply_ends_the_connection() {
    let mut client = sent(7, true, 20);
    assert_eq!(client.handle_transport_event(20, ClientEvent::Data(vec![99])), None);
    assert!(matches!(client.next(), Some(ClientAction::UnregisterTransport(20))));
    assert!(client.next().is_none());
}

#[test]
fn data_that_nobody_waits_for_is_dropped() {
    let mut client = Client::new();
    assert_eq!(client.handle_transport_event(20, ClientEvent::Data(vec![2, 8, 9])), None);
    assert!(client.next().is_none());
}

#[test]
fn terminated_connection_changes_nothing() {
    let mut client = sent(7, true, 20);
    assert_eq!(client.handle_transport_event(20, ClientEvent::Terminated), None);
    assert!(client.next().is_none());
    let reply = client.handle_transport_event(20, ClientEvent::Data(vec![2, 8, 9]));
    assert_eq!(reply, Some((Ask(7), Answer(8, 9))));
}

#[test]
fn replies_belong_to_their_requests() {
    let mut client = Client::new();
    client.handle_command(Cmd::Send { fd: 3, transport: "a", pending: pending(1, true) });
    client.handle_command(Cmd::Send { fd: 4, transport: "b", pending: pending(2, true) });
    client.handle_registered(4, 31, ResourceType::Transport);
    client.handle_registered(3, 30, ResourceType::Transport);
    let first = client.handle_transport_event(31, ClientEvent::Data(vec![2, 0, 0]));
    let second = client.handle_transport_event(30, ClientEvent::Data(vec![2, 1, 1]));
    assert_eq!(first, Some((Ask(2), Answer(0, 0))));
    assert_eq!(second, Some((Ask(1), Answer(1, 1))));
}

#[test]
fn client_actions_come_out_in_order() {
    let mut client = Client::new();
    client.handle_command(Cmd::Send { fd: 3, transport: "a", pending: pending(1, true) });
    client.handle_command(Cmd::Terminate);
    client.handle_registered(3, 30, ResourceType::Transport);
    client.terminate();
    assert!(matches!(client.next(), Some(ClientAction::RegisterTransport("a"))));
    assert!(matches!(client.next(), Some(ClientAction::Terminate)));
    assert!(matches!(client.next(), Some(ClientAction::Send(30, _))));
    assert!(matches!(client.next(), Some(ClientAction::Terminate)));
    assert!(client.next().is_none());
}

#[test]
fn newer_request_takes_over_a_descriptor() {
    let mut client = Client::new();
    client.handle_command(Cmd::Send { fd: 3, transport: "a", pending: pending(1, true) });
    client.handle_command(Cmd::Send { fd: 3, transport: "b", pending: pending(2, true) });
    client.handle_registered(3, 30, ResourceType::Transport);
    let reply = client.handle_transport_event(30, ClientEvent::Data(vec![2, 0, 0]));
    assert_eq!(reply, Some((Ask(2), Answer(0, 0))));
}

/// Reaches the server every second time.
struct Flaky(Cell<bool>);

impl SessionFactory for Flaky {
    type Session = u16;

    fn connect(&self) -> Option<u16> {
        self.0.set(!self.0.get());
        if self.0.get() {
            Some(443)
        } else {
            None
        }
    }
}

#[test]
fn commands_say_whether_a_reply_is_expected() {
    match FactoryCmd::send_only(Ask(1)) {
        FactoryCmd::Request(pending) => {
            assert_eq!(pending.request, Ask(1));
            assert!(!pending.awaits_reply);
        }
        FactoryCmd::Terminate => panic!("a request"),
    }
    match FactoryCmd::send_receive(Ask(2)) {
        FactoryCmd::Request(pending) => {
            assert_eq!(pending.request, Ask(2));
            assert!(pending.awaits_reply);
        }
        FactoryCmd::Terminate => panic!("a request"),
    }
}

#[test]
fn factory_opens_a_connection_for_a_request() {
    let factory = Factory::new(Flaky(Cell::new(false)));
    let event: FactoryEvent<u16, &str, Ask> =
        FactoryEvent::Received(Some(FactoryCmd::send_receive(Ask(5))));
    let pending = match run_step(event) {
        FactoryAction::Connect { pending } => pending,
        _ => panic!("a request needs a connection"),
    };
    let (session, pending) = match factory.process_request::<&str, Ask>(pending) {
        FactoryAction::Wrap { session, direction, pending } => {
            assert_eq!(direction, Direction::Outbound);
            (session, pending)
        }
        _ => panic!("the server was reached"),
    };
    assert_eq!(session, 443);
    let event: FactoryEvent<u16, &str, Ask> =
        FactoryEvent::Wrapped { transport: Some((9, "tcp")), pending };
    match run_step(event) {
        FactoryAction::Send { fd, transport, pending } => {
            assert_eq!(fd, 9);
            assert_eq!(transport, "tcp");
            assert_eq!(pending.request, Ask(5));
            assert!(pending.awaits_reply);
        }
        _ => panic!("the request is to be passed on"),
    }
    let event: FactoryEvent<u16, &str, Ask> = FactoryEvent::Passed;
    assert!(matches!(run_step(event), FactoryAction::Receive));
}

#[test]
fn factory_gives_up_a_request_without_a_connection() {
    let factory = Factory::new(Flaky(Cell::new(true)));
    let refused = factory.process_request::<&str, Ask>(pending(5, true));
    assert!(matches!(refused, FactoryAction::Receive));
    let reached = factory.process_request::<&str, Ask>(pending(6, true));
    assert!(matches!(reached, FactoryAction::Wrap { session: 443, .. }));
    let event: FactoryEvent<u16, &str, Ask> =
        FactoryEvent::Wrapped { transport: None, pending: pending(6, true) };
    assert!(matches!(run_step(event), FactoryAction::Receive));
    let event: FactoryEvent<u16, &str, Ask> =
        FactoryEvent::Connected { session: None, pending: pending(6, true) };
    assert!(matches!(run_step(event), FactoryAction::Receive));
}

#[test]
fn factory_passes_termination_on_and_stops_without_commands() {
    let event: FactoryEvent<u16, &str, Ask> = FactoryEvent::Received(Some(FactoryCmd::Terminate));
    assert!(matches!(run_step(event), FactoryAction::Terminate));
    let event: FactoryEvent<u16, &str, Ask> = FactoryEvent::Received(None);
    assert!(matches!(run_step(event), FactoryAction::Stop));
}

#[test]
fn commands_are_told_in_words() {
    let ask: Cmd<&str, Ask> = Cmd::Send { fd: 3, transport: "a", pending: pending(1, true) };
    assert_eq!(ask.display(), "Cmd::Send { awaits_reply: true }");
    let tell: Cmd<&str, Ask> = Cmd::Send { fd: 3, transport: "a", pending: pending(1, false) };
    assert_eq!(tell.display(), "Cmd::Send { awaits_reply: false }");
    let stop: Cmd<&str, Ask> = Cmd::Terminate;
    assert_eq!(stop.display(), "Cmd::Terminate");
}

/// Counts how often it is asked to connect.
struct Counting(Cell<u16>);

impl SessionFactory for Counting {
    type Session = u16;

    fn connect(&self) -> Option<u16> {
        self.0.set(self.0.get() + 1);
        Some(self.0.get())
    }
}

#[test]
fn factory_connects_once_for_each_request() {
    let factory = Factory::new(Counting(Cell::new(0)));
    for number in 1..4u16 {
        match factory.process_request::<&str, Ask>(pending(9, false)) {
            FactoryAction::Wrap { session, direction, pending } => {
                assert_eq!(session, number);
                assert_eq!(direction, Direction::Outbound);
                assert_eq!(pending.request, Ask(9));
                assert!(!pending.awaits_reply);
            }
            _ => panic!("the server was reached"),
        }
        assert_eq!(factory.connector.0.get(), number);
    }
}
