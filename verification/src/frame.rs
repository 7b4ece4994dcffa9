//! Framed transport: the one wire discipline of this protocol.
//!
//! Every encoded message travels as one frame: a 4-byte big-endian
//! length followed by exactly that many payload bytes. A reader first
//! gathers a whole frame and only then decodes it, so an incomplete
//! frame is never mistaken for a corrupt one.

use vstd::prelude::*;

use crate::codec::{parse_bytes, take_bytes};

verus! {

/// Gathers stream bytes and hands out complete frames.
///
/// Socket reads append arbitrary chunks; `next_frame` yields the payload
/// of the first complete frame and keeps the remainder buffered.
pub struct FrameReader {
    buf: Vec<u8>,
}

impl FrameReader {
    /// The bytes received and not yet handed out as frames.
    pub closed spec fn pending(self) -> Seq<u8> {
        self.buf@
    }

    /// A reader with nothing buffered.
    pub fn new() -> (r: FrameReader)
        ensures
            r.pending() =~= Seq::<u8>::empty(),
    {
        FrameReader { buf: Vec::new() }
    }

    /// Appends one chunk, exactly as it came off the stream.
    pub fn push_chunk(&mut self, chunk: &[u8])
        ensures
            final(self).pending() == old(self).pending() + chunk@,
    {
        let mut i: usize = 0;
        while i < chunk.len()
            invariant
                i <= chunk@.len(),
                self.buf@ =~= old(self).buf@ + chunk@.subrange(0, i as int),
            decreases chunk@.len() - i,
        {
            self.buf.push(chunk[i]);
            i = i + 1;
        }
        proof {
            assert(self.buf@ =~= old(self).buf@ + chunk@);
        }
    }

    /// Takes the payload of the first complete frame, if one has fully
    /// arrived; otherwise leaves the buffer untouched.
    pub fn next_frame(&mut self) -> (r: Option<Vec<u8>>)
        ensures
            match r {
                Some(body) => parse_bytes(old(self).pending()) == Some(
                    (body@, final(self).pending()),
                ),
                None => {
                    &&& parse_bytes(old(self).pending()) is None
                    &&& final(self).pending() == old(self).pending()
                },
            },
    {
        proof {
            assert(self.buf@.skip(0) =~= self.buf@);
        }
        match take_bytes(self.buf.as_slice(), 0) {
            None => None,
            Some((body, np)) => {
                let mut rem: Vec<u8> = Vec::new();
                let mut i: usize = np;
                let blen = self.buf.len();
                while i < blen
                    invariant
                        np <= i <= blen,
                        blen == self.buf@.len(),
                        rem@ =~= self.buf@.subrange(np as int, i as int),
                    decreases blen - i,
                {
                    rem.push(self.buf[i]);
                    i = i + 1;
                }
                proof {
                    assert(rem@ =~= self.buf@.skip(np as int));
                }
                self.buf = rem;
                Some(body)
            },
        }
    }
}

} // verus!
