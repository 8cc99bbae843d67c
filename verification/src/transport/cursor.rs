//! Reading a byte queue without taking anything out of it.

use std::collections::VecDeque;
use vstd::prelude::*;

verus! {

/// A position in a byte queue from which a frame is read.
///
/// Reading moves the position forward and leaves the queue as it is: only when a whole frame
/// was read does the owner of the queue drop the bytes before the position.
pub struct CursorDeque<'a> {
    queue: &'a VecDeque<u8>,
    pos: usize,
}

impl<'a> CursorDeque<'a> {
    /// The bytes of the queue, read or not.
    pub closed spec fn stream(&self) -> Seq<u8> {
        self.queue@
    }

    /// How many bytes of the queue have been read.
    pub closed spec fn pos(&self) -> nat {
        self.pos as nat
    }

    /// The bytes that are still to be read.
    pub open spec fn remaining(&self) -> Seq<u8> {
        self.stream().skip(self.pos() as int)
    }

    /// The first `max` of the bytes that are still to be read, or all of them where there are
    /// fewer.
    pub open spec fn upcoming(&self, max: usize) -> Seq<u8> {
        if max <= self.remaining().len() {
            self.remaining().take(max as int)
        } else {
            self.remaining()
        }
    }

    #[verifier::type_invariant]
    spec fn in_bounds(&self) -> bool {
        self.pos <= self.queue@.len()
    }

    /// Puts a cursor in front of the first byte of `queue`.
    pub fn new(queue: &'a VecDeque<u8>) -> (res: Self)
        ensures
            res.stream() == queue@,
            res.pos() == 0,
    {
        CursorDeque { queue, pos: 0 }
    }

    /// The number of bytes read so far.
    pub fn position(&self) -> (res: usize)
        ensures
            res == self.pos(),
            res <= self.stream().len(),
    {
        proof {
            use_type_invariant(self);
        }
        self.pos
    }

    /// Whether every byte of the queue has been read.
    pub fn is_empty(&self) -> (res: bool)
        ensures
            res == (self.remaining().len() == 0),
    {
        proof {
            use_type_invariant(self);
        }
        self.pos == self.queue.len()
    }

    /// The next bytes, up to `max`: that many, where so many are left, and else what is left.
    /// They stay to be read.
    pub fn peek(&self, max: usize) -> (res: Vec<u8>)
        ensures
            res@ == self.upcoming(max),
            self.pos() + res@.len() <= self.stream().len() <= usize::MAX,
    {
        proof {
            use_type_invariant(self);
        }
        let left: usize = self.queue.len() - self.pos;
        let count: usize = if max <= left {
            max
        } else {
            left
        };
        let mut res: Vec<u8> = Vec::new();
        let mut taken: usize = 0;
        while taken < count
            invariant
                taken <= count,
                self.pos + count <= self.queue@.len() <= usize::MAX,
                res@ == self.queue@.subrange(self.pos as int, self.pos + taken),
            decreases count - taken,
        {
            res.push(self.queue[self.pos + taken]);
            taken = taken + 1;
        }
        res
    }

    /// Reads the next bytes, up to `max`.
    pub fn read(&mut self, max: usize) -> (res: Vec<u8>)
        ensures
            res@ == old(self).upcoming(max),
            final(self).stream() == old(self).stream(),
            final(self).pos() == old(self).pos() + res@.len() <= final(self).stream().len(),
    {
        proof {
            use_type_invariant(&*self);
        }
        let res = self.peek(max);
        self.pos = self.pos + res.len();
        res
    }
}

} // verus!
