//! What framing guarantees over any number of reads and writes.

use vstd::prelude::*;

use crate::transport::cursor::CursorDeque;
use crate::transport::frame::{appends, drains, pops, Frame};

verus! {

/// Whether a frame type reads back what it writes: an encoding with anything behind it is read as
/// the frame and no further, and the beginning of one is not read at all.
pub open spec fn faithful<F: Frame>() -> bool {
    &&& forall|
        frame: F,
        bytes: Seq<u8>,
        rest: Seq<u8>,
        outcome: Result<Option<F>, F::Error>,
        taken: nat,
    |
        #![trigger frame.writes(bytes, Ok(())), F::reads(bytes + rest, outcome, taken)]
        frame.writes(bytes, Ok(())) && F::reads(bytes + rest, outcome, taken) ==> {
            &&& outcome matches Ok(Some(read))
            &&& read.same_as(&frame)
            &&& taken == bytes.len()
        }
    &&& forall|
        frame: F,
        bytes: Seq<u8>,
        len: int,
        outcome: Result<Option<F>, F::Error>,
        taken: nat,
    |
        #![trigger frame.writes(bytes, Ok(())), F::reads(bytes.take(len), outcome, taken)]
        frame.writes(bytes, Ok(())) && 0 <= len < bytes.len() && F::reads(
            bytes.take(len),
            outcome,
            taken,
        ) ==> outcome == Ok::<Option<F>, F::Error>(None)
    &&& forall|outcome: Result<Option<F>, F::Error>, taken: nat| #[trigger]
        F::reads(Seq::empty(), outcome, taken) ==> outcome == Ok::<Option<F>, F::Error>(None)
}

/// The parts, one after another.
pub open spec fn joined(parts: Seq<Seq<u8>>) -> Seq<u8>
    decreases parts.len(),
{
    if parts.len() == 0 {
        Seq::empty()
    } else {
        parts.first() + joined(parts.drop_first())
    }
}

/// Whether `parts` are encodings of `frames`.
pub open spec fn encodes<F: Frame>(frames: Seq<F>, parts: Seq<Seq<u8>>) -> bool {
    &&& parts.len() == frames.len()
    &&& forall|i: int| 0 <= i < frames.len() ==> (#[trigger] frames[i]).writes(parts[i], Ok(()))
}

/// Whether `frames` are the first of `sent`.
pub open spec fn echoes<F: Frame>(frames: Seq<F>, sent: Seq<F>) -> bool {
    &&& frames.len() <= sent.len()
    &&& forall|i: int| 0 <= i < frames.len() ==> (#[trigger] frames[i]).same_as(&sent[i])
}

/// Whether `stream` is the encodings of exactly the first `count` of `parts`, followed by `rest`,
/// which does not hold the whole next one.
pub open spec fn stops_in(
    stream: Seq<u8>,
    parts: Seq<Seq<u8>>,
    count: nat,
    rest: Seq<u8>,
) -> bool {
    &&& count <= parts.len()
    &&& stream == joined(parts.take(count as int)) + rest
    &&& if count == parts.len() {
        rest.len() == 0
    } else {
        rest.len() < parts[count as int].len() && rest == parts[count as int].take(
            rest.len() as int,
        )
    }
}

proof fn lemma_joined_step(parts: Seq<Seq<u8>>, count: int)
    requires
        0 <= count < parts.len(),
    ensures
        joined(parts.take(count + 1)) == joined(parts.take(count)) + parts[count],
    decreases count,
{
    let longer = parts.take(count + 1);
    assert(longer.first() == parts[0]);
    if count == 0 {
        assert(longer.drop_first() =~= Seq::empty());
        assert(joined(Seq::<Seq<u8>>::empty()) =~= Seq::empty());
        assert(parts.take(0) =~= Seq::empty());
        assert(joined(longer) =~= parts[0]);
    } else {
        let tail = parts.drop_first();
        lemma_joined_step(tail, count - 1);
        assert(longer.drop_first() =~= tail.take(count));
        assert(parts.take(count).drop_first() =~= tail.take(count - 1));
        assert(parts.take(count).first() == parts[0]);
        assert(joined(longer) =~= joined(parts.take(count)) + parts[count]);
    }
}

proof fn lemma_joined_split(parts: Seq<Seq<u8>>, count: int)
    requires
        0 <= count <= parts.len(),
    ensures
        joined(parts) == joined(parts.take(count)) + joined(parts.skip(count)),
    decreases count,
{
    if count == 0 {
        assert(parts.take(0) =~= Seq::empty());
        assert(parts.skip(0) =~= parts);
        assert(joined(parts) =~= Seq::<u8>::empty() + joined(parts));
    } else {
        let tail = parts.drop_first();
        lemma_joined_split(tail, count - 1);
        assert(parts.take(count).first() == parts[0]);
        assert(parts.take(count).drop_first() =~= tail.take(count - 1));
        assert(parts.skip(count) =~= tail.skip(count - 1));
        assert(joined(parts) =~= joined(parts.take(count)) + joined(parts.skip(count)));
    }
}

proof fn lemma_joined_grows(parts: Seq<Seq<u8>>, fewer: int, more: int)
    requires
        0 <= fewer < more <= parts.len(),
    ensures
        joined(parts.take(fewer)).len() + parts[fewer].len() <= joined(parts.take(more)).len(),
    decreases more,
{
    lemma_joined_step(parts, more - 1);
    if fewer < more - 1 {
        lemma_joined_grows(parts, fewer, more - 1);
    }
}

/// A queue that holds a beginning of some encodings gives back the frames that it holds in full,
/// in order, and then waits for the rest of the next one. It never fails.
pub proof fn law_frames_read_back<F: Frame>(
    sent: Seq<F>,
    parts: Seq<Seq<u8>>,
    rests: Seq<Seq<u8>>,
    frames: Seq<F>,
    failure: Option<F::Error>,
)
    requires
        faithful::<F>(),
        encodes(sent, parts),
        drains(rests, frames, failure),
        rests.first().is_prefix_of(joined(parts)),
    ensures
        failure is None,
        echoes(frames, sent),
        stops_in(rests.first(), parts, frames.len(), rests.last()),
    decreases frames.len(),
{
    let stream = rests.first();
    let whole = joined(parts);
    assert(stream =~= whole.take(stream.len() as int));
    if sent.len() == 0 {
        assert(stream =~= Seq::empty());
    } else {
        let part = parts.first();
        let later = joined(parts.drop_first());
        assert(whole == part + later);
        assert(sent[0].writes(part, Ok(())));
        if stream.len() >= part.len() {
            assert(stream =~= part + stream.skip(part.len() as int));
        } else {
            assert(stream =~= part.take(stream.len() as int));
        }
    }
    if frames.len() == 0 {
        assert(rests.last() == stream);
        assert(parts.take(0) =~= Seq::empty());
        assert(stream =~= joined(parts.take(0)) + stream);
    } else {
        assert(pops(rests[0], Ok(Some(frames[0])), rests[0int + 1]));
        let part = parts.first();
        assert(stream.len() >= part.len());
        assert(rests[1] =~= stream.skip(part.len() as int));
        let tail = joined(parts.drop_first());
        assert(rests[1] =~= tail.take(rests[1].len() as int)) by {
            assert forall|i: int| 0 <= i < rests[1].len() implies rests[1][i] == tail[i] by {
                assert(stream[part.len() + i] == whole[part.len() + i]);
            }
        }
        let rests2 = rests.drop_first();
        let frames2 = frames.drop_first();
        assert(rests2.last() == rests.last());
        assert forall|i: int| 0 <= i < frames2.len() implies pops(
            rests2[i],
            Ok(Some(#[trigger] frames2[i])),
            rests2[i + 1],
        ) by {
            assert(pops(rests[i + 1], Ok(Some(frames[i + 1])), rests[i + 1 + 1]));
        }
        let sent2 = sent.drop_first();
        let parts2 = parts.drop_first();
        assert forall|i: int| 0 <= i < sent2.len() implies (#[trigger] sent2[i]).writes(
            parts2[i],
            Ok(()),
        ) by {
            assert(sent[i + 1].writes(parts[i + 1], Ok(())));
        }
        law_frames_read_back(sent2, parts2, rests2, frames2, failure);
        assert forall|i: int| 0 <= i < frames.len() implies (#[trigger] frames[i]).same_as(
            &sent[i],
        ) by {
            if i > 0 {
                assert(frames2[i - 1].same_as(&sent2[i - 1]));
            }
        }
        let count = frames.len() as int;
        assert(parts.take(count).drop_first() =~= parts2.take(count - 1));
        assert(parts.take(count).first() == part);
        assert(stream =~= joined(parts.take(count)) + rests.last());
    }
}

/// Whether marshalling `sent` one after another, from an empty queue on, may give `queues`.
pub open spec fn marshals<F: Frame>(sent: Seq<F>, queues: Seq<Seq<u8>>) -> bool {
    &&& queues.len() == sent.len() + 1
    &&& queues.first().len() == 0
    &&& forall|i: int|
        0 <= i < sent.len() ==> appends(queues[i], #[trigger] sent[i], queues[i + 1])
}

/// What was marshalled is the encodings, one after another.
proof fn lemma_marshalled<F: Frame>(sent: Seq<F>, queues: Seq<Seq<u8>>) -> (parts: Seq<Seq<u8>>)
    requires
        marshals(sent, queues),
    ensures
        encodes(sent, parts),
        joined(parts) == queues.last(),
    decreases sent.len(),
{
    if sent.len() == 0 {
        assert(queues.last() =~= Seq::empty());
        Seq::empty()
    } else {
        let last = sent.len() - 1;
        let fewer = sent.drop_last();
        let before = queues.drop_last();
        assert forall|i: int| 0 <= i < fewer.len() implies appends(
            before[i],
            #[trigger] fewer[i],
            before[i + 1],
        ) by {
            assert(appends(queues[i], sent[i], queues[i + 1]));
        }
        let earlier = lemma_marshalled(fewer, before);
        assert(appends(queues[last], sent[last], queues[last + 1]));
        let bytes = choose|bytes: Seq<u8>|
            {
                &&& queues[last + 1] == queues[last] + bytes
                &&& #[trigger] sent[last].writes(bytes, Ok(()))
            };
        let parts = earlier.push(bytes);
        assert forall|i: int| 0 <= i < sent.len() implies (#[trigger] sent[i]).writes(
            parts[i],
            Ok(()),
        ) by {
            if i < last {
                assert(fewer[i].writes(earlier[i], Ok(())));
            }
        }
        lemma_joined_step(parts, last);
        assert(parts.take(last) =~= earlier);
        assert(parts.take(last + 1) =~= parts);
        parts
    }
}

/// What one end marshals, the other end unmarshals: once all bytes have arrived, the frames are
/// those that were sent, in order, and nothing is left. As long as some are still to come, the
/// frames are the first of those that were sent.
pub proof fn law_sent_frames_arrive<F: Frame>(
    sent: Seq<F>,
    queues: Seq<Seq<u8>>,
    rests: Seq<Seq<u8>>,
    frames: Seq<F>,
    failure: Option<F::Error>,
)
    requires
        faithful::<F>(),
        marshals(sent, queues),
        drains(rests, frames, failure),
        rests.first().is_prefix_of(queues.last()),
    ensures
        failure is None,
        echoes(frames, sent),
        rests.first() == queues.last() ==> frames.len() == sent.len() && rests.last().len() == 0,
{
    let parts = lemma_marshalled(sent, queues);
    law_frames_read_back(sent, parts, rests, frames, failure);
    assert(parts.take(parts.len() as int) =~= parts);
    if rests.first() == queues.last() && frames.len() < sent.len() {
        lemma_joined_grows(parts, frames.len() as int, parts.len() as int);
    }
}

/// It does not matter how the encodings of some frames arrive: frames taken off after each of two
/// pieces are as many as the frames taken off after both, they are the same frames that were sent,
/// and what is left in the queue is the same.
pub proof fn law_pieces<F: Frame>(
    sent: Seq<F>,
    parts: Seq<Seq<u8>>,
    first: (Seq<Seq<u8>>, Seq<F>, Option<F::Error>),
    piece: Seq<u8>,
    second: (Seq<Seq<u8>>, Seq<F>, Option<F::Error>),
    at_once: (Seq<Seq<u8>>, Seq<F>, Option<F::Error>),
)
    requires
        faithful::<F>(),
        encodes(sent, parts),
        drains(first.0, first.1, first.2),
        drains(second.0, second.1, second.2),
        drains(at_once.0, at_once.1, at_once.2),
        second.0.first() == first.0.last() + piece,
        at_once.0.first() == first.0.first() + piece,
        at_once.0.first().is_prefix_of(joined(parts)),
    ensures
        echoes(first.1 + second.1, sent),
        echoes(at_once.1, sent),
        (first.1 + second.1).len() == at_once.1.len(),
        second.0.last() == at_once.0.last(),
        first.2 is None && second.2 is None && at_once.2 is None,
{
    let whole = joined(parts);
    let stream = at_once.0.first();
    assert(stream =~= whole.take(stream.len() as int));
    assert(first.0.first() =~= whole.take(first.0.first().len() as int)) by {
        assert forall|i: int| 0 <= i < first.0.first().len() implies first.0.first()[i]
            == whole[i] by {
            assert(stream[i] == first.0.first()[i]);
        }
    }
    law_frames_read_back(sent, parts, first.0, first.1, first.2);
    law_frames_read_back(sent, parts, at_once.0, at_once.1, at_once.2);
    let k = first.1.len() as int;
    let sent2 = sent.skip(k);
    let parts2 = parts.skip(k);
    assert forall|i: int| 0 <= i < sent2.len() implies (#[trigger] sent2[i]).writes(
        parts2[i],
        Ok(()),
    ) by {
        assert(sent[i + k].writes(parts[i + k], Ok(())));
    }
    lemma_joined_split(parts, k);
    let head = joined(parts.take(k));
    let more = second.0.first();
    assert(stream =~= head + more);
    assert(more =~= joined(parts2).take(more.len() as int)) by {
        assert forall|i: int| 0 <= i < more.len() implies more[i] == joined(parts2)[i] by {
            assert(stream[head.len() + i] == more[i]);
            assert(whole[head.len() + i] == joined(parts2)[i]);
        }
    }
    law_frames_read_back(sent2, parts2, second.0, second.1, second.2);
    let l = second.1.len() as int;
    let n = at_once.1.len() as int;
    // The two ways to cut the stream are the same.
    lemma_joined_split(parts.take(k + l), k);
    assert(parts.take(k + l).take(k) =~= parts.take(k));
    assert(parts.take(k + l).skip(k) =~= parts2.take(l));
    assert(stream =~= joined(parts.take(k + l)) + second.0.last());
    if n < k + l {
        lemma_joined_grows(parts, n, k + l);
    }
    if k + l < n {
        lemma_joined_grows(parts, k + l, n);
        assert(parts2[l] == parts[k + l]);
    }
    let both = first.1 + second.1;
    assert forall|i: int| 0 <= i < both.len() implies (#[trigger] both[i]).same_as(&sent[i]) by {
        if i < k {
            assert(first.1[i].same_as(&sent[i]));
        } else {
            assert(second.1[i - k].same_as(&sent2[i - k]));
        }
    }
    assert(second.0.last() =~= at_once.0.last()) by {
        let cut = joined(parts.take(n)).len() as int;
        assert(stream.skip(cut) =~= at_once.0.last());
        assert(stream.skip(cut) =~= second.0.last());
    }
}

/// Whether the bytes settle what a frame type reads: more bytes behind do not change a frame that
/// is there, or that there is none.
pub open spec fn settled<F: Frame>() -> bool {
    forall|
        stream: Seq<u8>,
        more: Seq<u8>,
        first: Result<Option<F>, F::Error>,
        first_taken: nat,
        second: Result<Option<F>, F::Error>,
        second_taken: nat,
    |
        #![trigger
            F::reads(stream, first, first_taken),
            F::reads(stream + more, second, second_taken)
        ]
        F::reads(stream, first, first_taken) && F::reads(stream + more, second, second_taken)
            ==> match first {
            Ok(Some(frame)) => {
                &&& second matches Ok(Some(same))
                &&& frame.same_as(&same)
                &&& second_taken == first_taken
            },
            Ok(None) => true,
            Err(_) => second is Err,
        }
}

/// Whether `frames` and `others` are the same messages.
pub open spec fn alike<F: Frame>(frames: Seq<F>, others: Seq<F>) -> bool {
    &&& frames.len() == others.len()
    &&& forall|i: int| 0 <= i < frames.len() ==> (#[trigger] frames[i]).same_as(&others[i])
}

/// With more bytes behind, a queue gives the frames that it gives without, and then goes on where
/// it stopped.
pub proof fn lemma_lockstep<F: Frame>(
    short: (Seq<Seq<u8>>, Seq<F>, Option<F::Error>),
    more: Seq<u8>,
    long: (Seq<Seq<u8>>, Seq<F>, Option<F::Error>),
    n: int,
)
    requires
        settled::<F>(),
        drains(short.0, short.1, short.2),
        drains(long.0, long.1, long.2),
        long.0.first() == short.0.first() + more,
        0 <= n <= short.1.len(),
    ensures
        n <= long.1.len(),
        long.0[n] == short.0[n] + more,
        forall|i: int| 0 <= i < n ==> (#[trigger] short.1[i]).same_as(&long.1[i]),
        n == short.1.len() && short.2 is Some ==> long.1.len() == n && long.2 is Some,
    decreases n,
{
    if n > 0 {
        lemma_lockstep(short, more, long, n - 1);
        let m = n - 1;
        let before = short.0[m];
        assert(pops(short.0[m], Ok(Some(short.1[m])), short.0[m + 1]));
        let taken = (before.len() - short.0[n].len()) as nat;
        assert(F::reads(before, Ok(Some(short.1[m])), taken));
        if m == long.1.len() {
            assert(long.0.last() == before + more);
            assert(false);
        }
        assert(pops(long.0[m], Ok(Some(long.1[m])), long.0[m + 1]));
        assert(F::reads(
            before + more,
            Ok(Some(long.1[m])),
            (long.0[m].len() - long.0[n].len()) as nat,
        ));
        assert(short.1[m].same_as(&long.1[m]));
        assert(long.0[n] =~= short.0[n] + more);
    }
    if n == short.1.len() && short.2 is Some {
        let rest = short.0.last();
        let outcome = Err::<Option<F>, F::Error>(short.2->0);
        let taken = choose|taken: nat| #[trigger] F::reads(rest, outcome, taken);
        assert(F::reads(rest, outcome, taken));
        if n < long.1.len() {
            assert(pops(long.0[n], Ok(Some(long.1[n])), long.0[n + 1]));
            assert(F::reads(
                rest + more,
                Ok(Some(long.1[n])),
                (long.0[n].len() - long.0[n + 1].len()) as nat,
            ));
        }
        assert(long.0.last() == rest + more);
    }
}

/// It does not matter how any bytes arrive, frames or not: frames taken off after each of two
/// pieces are the frames taken off after both, what is left in the queue is the same, and there
/// is a failure either way or neither way.
pub proof fn law_pieces_of_any_stream<F: Frame>(
    first: (Seq<Seq<u8>>, Seq<F>, Option<F::Error>),
    piece: Seq<u8>,
    second: (Seq<Seq<u8>>, Seq<F>, Option<F::Error>),
    at_once: (Seq<Seq<u8>>, Seq<F>, Option<F::Error>),
)
    requires
        settled::<F>(),
        drains(first.0, first.1, first.2),
        drains(second.0, second.1, second.2),
        drains(at_once.0, at_once.1, at_once.2),
        second.0.first() == first.0.last() + piece,
        at_once.0.first() == first.0.first() + piece,
    ensures
        alike(first.1 + second.1, at_once.1),
        second.0.last() == at_once.0.last(),
        second.2 is Some <==> at_once.2 is Some,
        first.2 is Some ==> second.1.len() == 0 && second.2 is Some,
{
    let k = first.1.len() as int;
    lemma_lockstep(first, piece, at_once, k);
    // What is taken off at once, from where the first piece stopped.
    let rests = at_once.0.skip(k);
    let frames = at_once.1.skip(k);
    assert(rests.last() == at_once.0.last());
    assert forall|i: int| 0 <= i < frames.len() implies pops(
        rests[i],
        Ok(Some(#[trigger] frames[i])),
        rests[i + 1],
    ) by {
        assert(pops(at_once.0[i + k], Ok(Some(at_once.1[i + k])), at_once.0[i + k + 1]));
    }
    let rest = (rests, frames, at_once.2);
    assert(drains(rests, frames, at_once.2));
    let none = Seq::<u8>::empty();
    assert(second.0.first() + none =~= second.0.first());
    lemma_lockstep(second, none, rest, second.1.len() as int);
    lemma_lockstep(rest, none, second, frames.len() as int);
    assert(second.0.last() =~= at_once.0.last());
    let both = first.1 + second.1;
    assert forall|i: int| 0 <= i < both.len() implies (#[trigger] both[i]).same_as(
        &at_once.1[i],
    ) by {
        if i < k {
            assert(first.1[i].same_as(&at_once.1[i]));
        } else {
            assert(second.1[i - k].same_as(&frames[i - k]));
        }
    }
}

/// Marshalling puts an encoding of the frame behind what is to be sent, and nothing in front of it,
/// in between or behind.
pub proof fn law_marshalled_behind<F: Frame>(before: Seq<u8>, frame: F, after: Seq<u8>)
    requires
        appends(before, frame, after),
    ensures
        before.len() <= after.len(),
        forall|i: int| 0 <= i < before.len() ==> #[trigger] after[i] == before[i],
        frame.writes(after.skip(before.len() as int), Ok(())),
{
    let bytes = choose|bytes: Seq<u8>|
        {
            &&& after == before + bytes
            &&& #[trigger] frame.writes(bytes, Ok(()))
        };
    assert(after.skip(before.len() as int) =~= bytes);
}

/// Unmarshalling reads at the front of the queue. A frame takes the bytes that were read for it
/// off the front and leaves the others, in order. Without one, the queue stays as it is.
pub proof fn law_unmarshalled_in_front<F: Frame>(
    before: Seq<u8>,
    outcome: Result<Option<F>, F::Error>,
    after: Seq<u8>,
)
    requires
        pops(before, outcome, after),
    ensures
        outcome matches Ok(Some(_)) ==> {
            &&& after.len() <= before.len()
            &&& F::reads(before, outcome, (before.len() - after.len()) as nat)
            &&& forall|i: int|
                0 <= i < after.len() ==> #[trigger] after[i] == before[before.len() - after.len()
                    + i]
        },
        outcome matches Ok(None) ==> after == before && F::reads(before, outcome, 0),
        outcome is Err ==> after == before && exists|taken: nat| #[trigger]
            F::reads(before, outcome, taken),
{
}

/// Taking frames off goes on until there are none: what is left is not a whole frame where there
/// is no failure, and no frame where there is one. Every frame was read where the one before it
/// ended.
pub proof fn law_drained_to_the_end<F: Frame>(
    rests: Seq<Seq<u8>>,
    frames: Seq<F>,
    failure: Option<F::Error>,
    i: int,
)
    requires
        drains(rests, frames, failure),
    ensures
        rests.len() == frames.len() + 1,
        failure is None ==> F::reads(rests.last(), Ok(None), 0),
        failure matches Some(error) ==> exists|taken: nat| #[trigger]
            F::reads(rests.last(), Err(error), taken),
        0 <= i < frames.len() ==> {
            &&& rests[i + 1].len() <= rests[i].len()
            &&& rests[i + 1] == rests[i].skip(rests[i].len() - rests[i + 1].len())
            &&& F::reads(
                rests[i],
                Ok(Some(frames[i])),
                (rests[i].len() - rests[i + 1].len()) as nat,
            )
        },
{
    if 0 <= i < frames.len() {
        assert(pops(rests[i], Ok(Some(frames[i])), rests[i + 1]));
    }
}

/// A cursor gives the bytes that follow its position, as many as were asked for or as there are.
pub proof fn law_upcoming_bytes(cursor: CursorDeque<'_>, max: usize, i: int)
    requires
        cursor.pos() <= cursor.stream().len(),
    ensures
        cursor.remaining().len() == cursor.stream().len() - cursor.pos(),
        cursor.upcoming(max).len() == if max <= cursor.stream().len() - cursor.pos() {
            max as int
        } else {
            cursor.stream().len() - cursor.pos()
        },
        0 <= i < cursor.upcoming(max).len() ==> cursor.upcoming(max)[i]
            == cursor.stream()[cursor.pos() + i],
{
}

} // verus!
