use std::collections::VecDeque;

use netservices::transport::cursor::CursorDeque;
use netservices::transport::frame::{ByteSink, Frame, Marshaller, NoRoom};
use netservices::{Direction, READ_BUFFER_SIZE};

/// One length byte, then as many bytes. A length of 255 is malformed.
#[derive(Clone, PartialEq, Debug)]
struct Short(Vec<u8>);

#[derive(Clone, PartialEq, Debug)]
struct Malformed;

impl Frame for Short {
    type Error = Malformed;

    fn unmarshall(reader: &mut CursorDeque<'_>) -> Result<Option<Self>, Malformed> {
        let len = match reader.peek(1).first() {
            None => return Ok(None),
            Some(255) => return Err(Malformed),
            Some(len) => *len as usize,
        };
        if reader.peek(len + 1).len() < len + 1 {
            return Ok(None);
        }
        Ok(Some(Short(reader.read(len + 1)[1..].to_vec())))
    }

    fn marshall<W: ByteSink>(&self, writer: &mut W) -> Result<(), Malformed> {
        writer.write_all(&[self.0.len() as u8]);
        writer.write_all(&self.0);
        Ok(())
    }
}

fn drain(marshaller: &mut Marshaller) -> (Vec<Short>, Option<Malformed>) {
    let mut frames = Vec::new();
    loop {
        match marshaller.unmarshall::<Short>() {
            Ok(Some(frame)) => frames.push(frame),
            Ok(None) => return (frames, None),
            Err(error) => return (frames, Some(error)),
        }
    }
}

#[test]
fn read_buffer_holds_the_longest_packet() {
    assert_eq!(READ_BUFFER_SIZE, 65535);
}

#[test]
fn directions_are_told_apart() {
    assert!(Direction::Inbound.is_inbound());
    assert!(!Direction::Inbound.is_outbound());
    assert!(Direction::Outbound.is_outbound());
    assert!(!Direction::Outbound.is_inbound());
    assert!(Direction::Inbound < Direction::Outbound);
}

#[test]
fn directions_are_written_in_lower_case() {
    assert_eq!(Direction::Inbound.display(), "inbound");
    assert_eq!(Direction::Outbound.display(), "outbound");
}

#[test]
fn cursor_reads_without_taking() {
    let queue: VecDeque<u8> = VecDeque::from(vec![1, 2, 3, 4]);
    let mut cursor = CursorDeque::new(&queue);
    assert_eq!(cursor.position(), 0);
    assert_eq!(cursor.read(3), vec![1, 2, 3]);
    assert_eq!(cursor.position(), 3);
    assert!(!cursor.is_empty());
    assert_eq!(cursor.read(3), vec![4]);
    assert_eq!(cursor.position(), 4);
    assert!(cursor.is_empty());
    assert_eq!(cursor.read(1), Vec::<u8>::new());
    assert_eq!(queue.len(), 4);
}

#[test]
fn cursor_peeks_without_moving() {
    let queue: VecDeque<u8> = VecDeque::from(vec![7, 8]);
    let mut cursor = CursorDeque::new(&queue);
    assert_eq!(cursor.peek(1), vec![7]);
    assert_eq!(cursor.peek(usize::MAX), vec![7, 8]);
    assert_eq!(cursor.position(), 0);
    assert_eq!(cursor.read(1), vec![7]);
    assert_eq!(cursor.peek(0), Vec::<u8>::new());
    assert_eq!(cursor.peek(5), vec![8]);
}

#[test]
fn cursor_on_nothing_is_empty() {
    let queue: VecDeque<u8> = VecDeque::new();
    assert!(CursorDeque::new(&queue).is_empty());
}

#[test]
fn bytes_go_behind_what_was_written() {
    let mut vec: Vec<u8> = vec![1];
    ByteSink::write_all(&mut vec, &[2, 3]);
    assert_eq!(vec, vec![1, 2, 3]);
    let mut deque: VecDeque<u8> = VecDeque::from(vec![1]);
    ByteSink::write_all(&mut deque, &[2, 3]);
    assert_eq!(deque, VecDeque::from(vec![1, 2, 3]));
}

#[test]
fn serialized_frame_is_its_encoding() {
    assert_eq!(Short(vec![5, 6]).serialize(), vec![2, 5, 6]);
    assert_eq!(Short(vec![]).serialize(), vec![0]);
}

#[test]
fn new_marshaller_is_empty() {
    let fresh = Marshaller::new();
    assert_eq!(fresh.read_queue_len(), 0);
    assert_eq!(fresh.write_queue_len(), 0);
    let roomy = Marshaller::with_capacity(1000);
    assert_eq!(roomy.read_queue_len(), 0);
    assert_eq!(roomy.write_queue_len(), 0);
    let default = Marshaller::default();
    assert_eq!(default.read_queue_len(), 0);
    assert_eq!(default.write_queue_len(), 0);
}

#[test]
fn marshalled_frames_are_to_be_sent() {
    let mut marshaller = Marshaller::new();
    marshaller.marshall(Short(vec![1, 2]));
    assert_eq!(marshaller.write_queue_len(), 3);
    marshaller.marshall(Short(vec![]));
    assert_eq!(marshaller.write_queue_len(), 4);
    marshaller.extend_sendable(vec![9; 10]);
    assert_eq!(marshaller.write_queue_len(), 14);
    assert_eq!(marshaller.read_queue_len(), 0);
}

#[test]
fn whole_frames_are_taken_off() {
    let mut marshaller = Marshaller::new();
    marshaller.extend_received(vec![2, 10, 11, 0, 1, 12]);
    assert_eq!(marshaller.unmarshall(), Ok(Some(Short(vec![10, 11]))));
    assert_eq!(marshaller.read_queue_len(), 3);
    assert_eq!(marshaller.unmarshall(), Ok(Some(Short(vec![]))));
    assert_eq!(marshaller.unmarshall(), Ok(Some(Short(vec![12]))));
    assert_eq!(marshaller.unmarshall::<Short>(), Ok(None));
    assert_eq!(marshaller.read_queue_len(), 0);
    assert_eq!(marshaller.write_queue_len(), 0);
}

#[test]
fn part_of_a_frame_waits() {
    let mut marshaller = Marshaller::new();
    marshaller.extend_received(vec![3, 1, 2]);
    assert_eq!(marshaller.unmarshall::<Short>(), Ok(None));
    assert_eq!(marshaller.read_queue_len(), 3);
    marshaller.extend_received(vec![3]);
    assert_eq!(marshaller.unmarshall(), Ok(Some(Short(vec![1, 2, 3]))));
    assert_eq!(marshaller.read_queue_len(), 0);
}

#[test]
fn malformed_bytes_stay_in_the_queue() {
    let mut marshaller = Marshaller::new();
    marshaller.extend_received(vec![1, 7, 255, 4]);
    assert_eq!(marshaller.unmarshall(), Ok(Some(Short(vec![7]))));
    assert_eq!(marshaller.unmarshall::<Short>(), Err(Malformed));
    assert_eq!(marshaller.read_queue_len(), 2);
    assert_eq!(marshaller.unmarshall::<Short>(), Err(Malformed));
}

#[test]
fn received_bytes_fit() {
    let mut marshaller = Marshaller::new();
    assert_eq!(marshaller.receive(vec![1, 9]), Ok(()));
    assert_ne!(marshaller.receive(vec![]), Err(NoRoom));
    assert_eq!(marshaller.read_queue_len(), 2);
    assert_eq!(marshaller.unmarshall(), Ok(Some(Short(vec![9]))));
}

#[test]
fn clone_has_queues_of_its_own() {
    let mut marshaller = Marshaller::new();
    marshaller.extend_received(vec![1, 9]);
    marshaller.extend_sendable(vec![4]);
    let mut copy = marshaller.clone();
    assert_eq!(copy.unmarshall(), Ok(Some(Short(vec![9]))));
    assert_eq!(copy.read_queue_len(), 0);
    assert_eq!(copy.write_queue_len(), 1);
    assert_eq!(marshaller.read_queue_len(), 2);
}

#[test]
fn frames_read_back_in_order() {
    let sent = vec![Short(vec![1]), Short(vec![]), Short(vec![2, 3]), Short(vec![4; 254])];
    let mut marshaller = Marshaller::new();
    for frame in &sent {
        marshaller.extend_received(frame.serialize());
    }
    marshaller.extend_received(vec![2, 5]);
    let (frames, failure) = drain(&mut marshaller);
    assert_eq!(frames, sent);
    assert_eq!(failure, None);
    assert_eq!(marshaller.read_queue_len(), 2);
}

#[test]
fn pieces_give_the_same_frames() {
    let stream: Vec<u8> = vec![2, 1, 2, 1, 3, 0, 3, 4, 5];
    for cut in 0..stream.len() + 1 {
        let mut pieces = Marshaller::new();
        pieces.extend_received(stream[..cut].to_vec());
        let (mut frames, first_failure) = drain(&mut pieces);
        pieces.extend_received(stream[cut..].to_vec());
        let (more, second_failure) = drain(&mut pieces);
        frames.extend(more);
        assert_eq!(frames, vec![Short(vec![1, 2]), Short(vec![3]), Short(vec![])]);
        assert_eq!(first_failure, None);
        assert_eq!(second_failure, None);
        assert_eq!(pieces.read_queue_len(), 3);
    }
}
