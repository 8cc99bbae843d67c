//! Frames, and the queues through which they pass as bytes.

use std::collections::VecDeque;
use vstd::prelude::*;

use crate::transport::cursor::CursorDeque;

verus! {

/// An in-memory end to which bytes are written in order. A write never fails.
pub trait ByteSink: Sized {
    /// The bytes written so far.
    spec fn written(&self) -> Seq<u8>;

    /// Writes all of `bytes` behind what is already there.
    fn write_all(&mut self, bytes: &[u8])
        ensures
            final(self).written() == old(self).written() + bytes@,
    ;
}

impl ByteSink for Vec<u8> {
    open spec fn written(&self) -> Seq<u8> {
        self@
    }

    fn write_all(&mut self, bytes: &[u8]) {
        self.extend_from_slice(bytes);
    }
}

impl ByteSink for VecDeque<u8> {
    open spec fn written(&self) -> Seq<u8> {
        self@
    }

    fn write_all(&mut self, bytes: &[u8]) {
        let mut i: usize = 0;
        while i < bytes.len()
            invariant
                i <= bytes@.len(),
                self@ == old(self)@ + bytes@.take(i as int),
            decreases bytes@.len() - i,
        {
            self.push_back(bytes[i]);
            i = i + 1;
        }
    }
}

/// A message with a byte encoding that tells where it ends.
///
/// An implementation describes itself by two relations, [`reads`](Frame::reads) and
/// [`writes`](Frame::writes). Neither has to be a function: reading one stream twice may come
/// out differently, as far as this library is concerned.
pub trait Frame: Sized {
    /// What goes wrong in an encoding or in writing one.
    type Error;

    /// Whether reading from a stream that holds `stream` may end in `outcome` with `taken` bytes
    /// read.
    open spec fn reads(
        stream: Seq<u8>,
        outcome: Result<Option<Self>, Self::Error>,
        taken: nat,
    ) -> bool {
        true
    }

    /// Whether writing the frame may end in `outcome` with exactly `bytes` written.
    open spec fn writes(&self, bytes: Seq<u8>, outcome: Result<(), Self::Error>) -> bool {
        true
    }

    /// Whether two frames are the same message. Unless an implementation says otherwise, equal
    /// ones are. One that holds vectors or strings compares what is in them.
    open spec fn same_as(&self, other: &Self) -> bool {
        *self == *other
    }

    /// Reads a frame from the stream.
    ///
    /// If the stream doesn't contain the whole message, returns `Ok(None)` and does not consume
    /// any data from the stream.
    fn unmarshall(reader: &mut CursorDeque<'_>) -> (outcome: Result<Option<Self>, Self::Error>)
        ensures
            final(reader).stream() == old(reader).stream(),
            old(reader).pos() <= final(reader).pos(),
            outcome matches Ok(None) ==> final(reader).pos() == old(reader).pos(),
            Self::reads(
                old(reader).remaining(),
                outcome,
                (final(reader).pos() - old(reader).pos()) as nat,
            ),
    ;

    /// Writes the encoding of the frame.
    fn marshall<W: ByteSink>(&self, writer: &mut W) -> (outcome: Result<(), Self::Error>)
        ensures
            exists|bytes: Seq<u8>|
                {
                    &&& final(writer).written() == old(writer).written() + bytes
                    &&& #[trigger] self.writes(bytes, outcome)
                },
    ;

    /// The encoding of the frame, for a frame whose encoding cannot fail.
    fn serialize(&self) -> (buf: Vec<u8>)
        requires
            forall|bytes: Seq<u8>, outcome: Result<(), Self::Error>| #[trigger]
                self.writes(bytes, outcome) ==> outcome is Ok,
        ensures
            self.writes(buf@, Ok(())),
    {
        let mut buf: Vec<u8> = Vec::new();
        let outcome = self.marshall(&mut buf);
        proof {
            assert(outcome->Ok_0 == ());
            let bytes = choose|bytes: Seq<u8>|
                {
                    &&& buf@ == Seq::<u8>::empty() + bytes
                    &&& #[trigger] self.writes(bytes, outcome)
                };
            assert(bytes =~= buf@);
        }
        buf
    }
}

/// Whether writing `frame` to memory ends well, however it is encoded.
pub open spec fn always_marshalls<F: Frame>(frame: F) -> bool {
    forall|bytes: Seq<u8>, outcome: Result<(), F::Error>| #[trigger]
        frame.writes(bytes, outcome) ==> outcome is Ok
}

/// Whether every frame of the type takes at least one byte off the stream, so that a finite
/// stream holds finitely many.
pub open spec fn productive<F: Frame>() -> bool {
    forall|stream: Seq<u8>, frame: F, taken: nat| #[trigger]
        F::reads(stream, Ok(Some(frame)), taken) ==> taken > 0
}

/// Whether putting `frame` behind the bytes `before` may give `after`.
pub open spec fn appends<F: Frame>(before: Seq<u8>, frame: F, after: Seq<u8>) -> bool {
    exists|bytes: Seq<u8>|
        {
            &&& after == before + bytes
            &&& #[trigger] frame.writes(bytes, Ok(()))
        }
}

/// Whether one attempt to take a frame off the queue `before` may end in `outcome` and leave
/// `after`. Bytes leave the queue only together with the frame that they encode.
pub open spec fn pops<F: Frame>(
    before: Seq<u8>,
    outcome: Result<Option<F>, F::Error>,
    after: Seq<u8>,
) -> bool {
    match outcome {
        Ok(Some(_)) => {
            &&& after.len() <= before.len()
            &&& after == before.skip(before.len() - after.len())
            &&& F::reads(before, outcome, (before.len() - after.len()) as nat)
        },
        Ok(None) => after == before && F::reads(before, outcome, 0),
        Err(_) => after == before && exists|taken: nat| #[trigger]
            F::reads(before, outcome, taken),
    }
}

/// Whether taking frames off a queue for as long as there are any may give `frames`, where
/// `rests` is what the queue holds at first and after each of the frames. There is a `failure`
/// where what is left in the end is no frame, and none where it is not a whole frame.
pub open spec fn drains<F: Frame>(
    rests: Seq<Seq<u8>>,
    frames: Seq<F>,
    failure: Option<F::Error>,
) -> bool {
    &&& rests.len() == frames.len() + 1
    &&& forall|i: int|
        0 <= i < frames.len() ==> pops(rests[i], Ok(Some(#[trigger] frames[i])), rests[i + 1])
    &&& pops::<F>(
        rests.last(),
        match failure {
            None => Ok(None),
            Some(error) => Err(error),
        },
        rests.last(),
    )
}

/// The queues of a marshaller, as sequences of bytes.
pub struct MarshallerView {
    /// Bytes that were received and are not yet part of a frame.
    pub received: Seq<u8>,
    /// Bytes that are to be sent.
    pub sendable: Seq<u8>,
}

/// The read queue cannot hold the bytes that arrived.
#[derive(Copy, Clone, Eq, PartialEq, Debug, Structural)]
pub struct NoRoom;

/// Turns frames into bytes to send, and received bytes into frames.
#[derive(Debug)]
pub struct Marshaller {
    read_queue: VecDeque<u8>,
    write_queue: VecDeque<u8>,
}

impl View for Marshaller {
    type V = MarshallerView;

    closed spec fn view(&self) -> MarshallerView {
        MarshallerView { received: self.read_queue@, sendable: self.write_queue@ }
    }
}

impl Clone for Marshaller {
    fn clone(&self) -> (res: Self)
        ensures
            res@ == self@,
    {
        let res = Marshaller {
            read_queue: self.read_queue.clone(),
            write_queue: self.write_queue.clone(),
        };
        assert(res.read_queue@ =~= self.read_queue@);
        assert(res.write_queue@ =~= self.write_queue@);
        res
    }
}

impl Default for Marshaller {
    fn default() -> (res: Self)
        ensures
            res@.received.len() == 0,
            res@.sendable.len() == 0,
    {
        Marshaller::new()
    }
}

impl Marshaller {
    /// A marshaller with empty queues.
    pub fn new() -> (res: Self)
        ensures
            res@.received.len() == 0,
            res@.sendable.len() == 0,
    {
        Self { read_queue: VecDeque::new(), write_queue: VecDeque::new() }
    }

    /// Like [`new`](Self::new), with room for `capacity` bytes set aside in each queue.
    pub fn with_capacity(capacity: usize) -> (res: Self)
        requires
            capacity <= isize::MAX,
        ensures
            res@.received.len() == 0,
            res@.sendable.len() == 0,
    {
        Self {
            read_queue: VecDeque::with_capacity(capacity),
            write_queue: VecDeque::with_capacity(capacity),
        }
    }

    /// Puts the encoding of `frame` behind the bytes that are to be sent.
    pub fn marshall<F: Frame>(&mut self, frame: F)
        requires
            always_marshalls(frame),
        ensures
            final(self)@.received == old(self)@.received,
            appends(old(self)@.sendable, frame, final(self)@.sendable),
    {
        let outcome = frame.marshall(&mut self.write_queue);
        assert(outcome->Ok_0 == ());
    }

    /// Takes the first frame off the received bytes.
    ///
    /// Returns `Ok(None)` where they do not hold a whole frame yet. Then, and on an error, they
    /// stay as they are.
    pub fn unmarshall<F: Frame>(&mut self) -> (outcome: Result<Option<F>, F::Error>)
        ensures
            pops(old(self)@.received, outcome, final(self)@.received),
            final(self)@.sendable == old(self)@.sendable,
    {
        let mut cursor = CursorDeque::new(&self.read_queue);
        let outcome = F::unmarshall(&mut cursor);
        let pos = cursor.position();
        assert(self.read_queue@.skip(0) =~= self.read_queue@);
        match outcome {
            Ok(Some(frame)) => {
                let rest = self.read_queue.split_off(pos);
                self.read_queue = rest;
                Ok(Some(frame))
            },
            Ok(None) => Ok(None),
            Err(err) => Err(err),
        }
    }

    /// Puts `data` behind the received bytes.
    pub fn extend_received(&mut self, data: Vec<u8>)
        ensures
            final(self)@.received == old(self)@.received + data@,
            final(self)@.sendable == old(self)@.sendable,
    {
        self.read_queue.write_all(data.as_slice());
    }

    /// Puts `data` behind the received bytes, unless the queue would then be longer than a
    /// length can say.
    pub fn receive(&mut self, data: Vec<u8>) -> (res: Result<(), NoRoom>)
        ensures
            res is Ok <==> old(self)@.received.len() + data@.len() <= usize::MAX,
            res is Ok ==> final(self)@.received == old(self)@.received + data@,
            res is Err ==> final(self)@.received == old(self)@.received,
            final(self)@.sendable == old(self)@.sendable,
    {
        if data.len() > usize::MAX - self.read_queue.len() {
            return Err(NoRoom);
        }
        self.extend_received(data);
        Ok(())
    }

    /// Puts `data` behind the bytes that are to be sent.
    pub fn extend_sendable(&mut self, data: Vec<u8>)
        ensures
            final(self)@.sendable == old(self)@.sendable + data@,
            final(self)@.received == old(self)@.received,
    {
        self.write_queue.write_all(data.as_slice());
    }

    /// The number of bytes that were received and are not yet part of a frame.
    pub fn read_queue_len(&self) -> (res: usize)
        ensures
            res == self@.received.len(),
    {
        self.read_queue.len()
    }

    /// The number of bytes that are to be sent.
    pub fn write_queue_len(&self) -> (res: usize)
        ensures
            res == self@.sendable.len(),
    {
        self.write_queue.len()
    }
}

} // verus!
