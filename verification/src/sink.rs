//! Byte sinks: where the encoder's output goes.

use vstd::prelude::*;
use vstd::string::StringExecFns;

verus! {

/// Whether a sink that vouches for `room` more bytes is sure to take `n` of
/// them. `None` stands for a sink that never refuses.
pub open spec fn fits(room: Option<nat>, n: nat) -> bool {
    match room {
        None => true,
        Some(k) => n <= k,
    }
}

/// What a sink that vouched for `room` bytes still vouches for once it has
/// taken `n` of them.
pub open spec fn less(room: Option<nat>, n: nat) -> Option<nat> {
    match room {
        None => None,
        Some(k) => if n <= k {
            Some((k - n) as nat)
        } else {
            Some(0nat)
        },
    }
}

/// `after` holds everything of `before`, followed by a part of `text` that
/// stops short of its end.
pub open spec fn cut_short(before: Seq<u8>, after: Seq<u8>, text: Seq<u8>) -> bool {
    &&& before.len() <= after.len() < before.len() + text.len()
    &&& after == (before + text).take(after.len() as int)
}

/// What is known of a sink at one moment.
pub struct Tape {
    /// Every byte taken so far, oldest first.
    pub taken: Seq<u8>,
    /// How many more bytes the sink is sure to take: `None` if it never
    /// refuses, `Some(0)` if it promises nothing.
    pub room: Option<nat>,
    /// Whether the sink keeps to its room: it then refuses every write that
    /// does not fit, and takes of such a write what still fits.
    pub strict: bool,
}

/// Something that takes bytes in order and may refuse to take more.
pub trait Sink {
    /// Every byte taken so far, oldest first.
    spec fn taken(&self) -> Seq<u8>;

    /// How many more bytes the sink is sure to take: `None` if it never
    /// refuses, `Some(0)` if it promises nothing.
    spec fn room(&self) -> Option<nat>;

    /// Whether the sink keeps to its room: it then refuses every write that
    /// does not fit, and takes of such a write what still fits.
    spec fn strict(&self) -> bool;

    /// Hands `bytes` to the sink. On success all of them were taken; on
    /// failure only a part that stops short of the end, and the message says
    /// why. What fits into the room is never refused.
    fn write_all(&mut self, bytes: &[u8]) -> (r: Result<(), String>)
        ensures
            r is Ok ==> final(self).taken() == old(self).taken() + bytes@,
            r is Ok ==> final(self).room() == less(old(self).room(), bytes@.len()),
            r is Err ==> cut_short(old(self).taken(), final(self).taken(), bytes@),
            fits(old(self).room(), bytes@.len()) ==> r is Ok,
            final(self).strict() == old(self).strict(),
            old(self).strict() && !fits(old(self).room(), bytes@.len()) ==> r is Err
                && final(self).room() == Some(0nat) && final(self).taken() == old(self).taken()
                + bytes@.take(old(self).room()->0 as int),
    ;
}

/// What is known of `w` as it stands.
pub open spec fn state<W: Sink>(w: W) -> Tape {
    Tape { taken: w.taken(), room: w.room(), strict: w.strict() }
}

/// A growing buffer takes everything.
impl Sink for Vec<u8> {
    open spec fn taken(&self) -> Seq<u8> {
        self@
    }

    open spec fn room(&self) -> Option<nat> {
        None
    }

    open spec fn strict(&self) -> bool {
        true
    }

    fn write_all(&mut self, bytes: &[u8]) -> (r: Result<(), String>)
        ensures
            r is Ok,
    {
        let mut i: usize = 0;
        while i < bytes.len()
            invariant
                i <= bytes@.len(),
                self@ == old(self)@ + bytes@.take(i as int),
            decreases bytes@.len() - i,
        {
            self.push(bytes[i]);
            i += 1;
            assert(bytes@.take(i as int) == bytes@.take(i - 1).push(bytes@[i - 1]));
        }
        assert(bytes@.take(i as int) == bytes@);
        Ok(())
    }
}

/// A buffer that takes a fixed number of bytes and refuses the rest. Of a
/// write that does not fit it takes what still fits.
pub struct Capped {
    buf: Vec<u8>,
    left: usize,
}

impl Capped {
    /// An empty sink that will take `limit` bytes.
    pub fn new(limit: usize) -> (s: Self)
        ensures
            s.taken() == Seq::<u8>::empty(),
            s.room() == Some(limit as nat),
    {
        Capped { buf: Vec::new(), left: limit }
    }

    /// The bytes taken so far.
    pub fn bytes(&self) -> (b: &[u8])
        ensures
            b@ == self.taken(),
    {
        self.buf.as_slice()
    }

    /// How many more bytes will be taken.
    pub fn remaining(&self) -> (n: usize)
        ensures
            self.room() == Some(n as nat),
    {
        self.left
    }
}

impl Sink for Capped {
    closed spec fn taken(&self) -> Seq<u8> {
        self.buf@
    }

    closed spec fn room(&self) -> Option<nat> {
        Some(self.left as nat)
    }

    open spec fn strict(&self) -> bool {
        true
    }

    fn write_all(&mut self, bytes: &[u8]) -> (r: Result<(), String>) {
        let whole = bytes.len() <= self.left;
        let n: usize = if whole {
            bytes.len()
        } else {
            self.left
        };
        let mut i: usize = 0;
        while i < n
            invariant
                i <= n <= bytes@.len(),
                self.left == old(self).left,
                self.buf@ == old(self).buf@ + bytes@.take(i as int),
            decreases n - i,
        {
            self.buf.push(bytes[i]);
            i += 1;
            assert(bytes@.take(i as int) == bytes@.take(i - 1).push(bytes@[i - 1]));
        }
        self.left = self.left - n;
        if whole {
            assert(bytes@.take(n as int) == bytes@);
            Ok(())
        } else {
            assert((old(self).buf@ + bytes@).take(self.buf@.len() as int) == self.buf@);
            Err(String::from_str("the sink is full"))
        }
    }
}

} // verus!
