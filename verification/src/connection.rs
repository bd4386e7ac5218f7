//! A connection's read state: the bytes received from the peer and not yet
//! consumed by a decoded frame.
//!
//! The socket itself lives with the caller. The caller feeds raw bytes in
//! with `fill`, asks for a complete frame with `parse_frame`, and consults
//! `end_of_stream` when the peer stops sending: a clean close with an
//! empty buffer ends the stream, leftover bytes mean a reset mid-frame.

use crate::frame::{
    lemma_check_parse_agree, spec_check, spec_parse, CheckRes, Error, Frame, ParseRes,
};
use vstd::prelude::*;

verus! {

/// One client connection's buffered input. Bytes before the current frame
/// boundary are dropped as each frame is consumed and never re-read.
pub struct Connection {
    buffer: Vec<u8>,
}

impl View for Connection {
    type V = Seq<u8>;

    closed spec fn view(&self) -> Seq<u8> {
        self.buffer@
    }
}

impl Connection {
    /// A connection with nothing buffered yet.
    pub fn new() -> (c: Connection)
        ensures
            c@ == Seq::<u8>::empty(),
    {
        let c = Connection { buffer: Vec::new() };
        proof {
            assert(c@ =~= Seq::<u8>::empty());
        }
        c
    }

    /// Appends bytes read from the socket to the buffer.
    pub fn fill(&mut self, data: &Vec<u8>)
        ensures
            final(self)@ == old(self)@ + data@,
    {
        let mut i: usize = 0;
        while i < data.len()
            invariant
                0 <= i <= data.len(),
                self.buffer@ == old(self)@ + data@.take(i as int),
            decreases data.len() - i,
        {
            proof {
                assert(old(self)@ + data@.take(i + 1) =~= (old(self)@ + data@.take(
                    i as int,
                )).push(data@[i as int]));
            }
            self.buffer.push(data[i]);
            i = i + 1;
        }
        proof {
            assert(data@.take(data@.len() as int) =~= data@);
        }
    }

    /// True while bytes sit in the buffer waiting for the rest of a frame.
    pub fn has_buffered(&self) -> (b: bool)
        ensures
            b == (self@.len() != 0),
    {
        self.buffer.len() != 0
    }

    /// The outcome when the socket reports end of stream: a clean close
    /// with an empty buffer means the peer finished between frames;
    /// leftover bytes mean it reset mid-frame, which is a transport error.
    pub fn end_of_stream(&self) -> (r: Result<Option<Frame>, Error>)
        ensures
            self@.len() == 0 ==> (r matches Ok(f) && f is None),
            self@.len() != 0 ==> (r matches Err(Error::Other(m))),
    {
        if self.buffer.len() == 0 {
            Ok(None)
        } else {
            Err(Error::Other(("connection reset by peer").to_owned()))
        }
    }

    /// Tries to decode one complete frame from the front of the buffer.
    /// A complete frame is consumed and returned; too few bytes for a
    /// verdict leaves the buffer unchanged and asks for more; malformed
    /// bytes are a protocol error.
    pub fn parse_frame(&mut self) -> (r: Result<Option<Frame>, Error>)
        ensures
            match spec_check(old(self)@) {
                CheckRes::Incomplete => (r matches Ok(f) && f is None && final(self)@ == old(
                    self,
                )@),
                CheckRes::Bad => (r matches Err(Error::Other(m)) && final(self)@ == old(self)@),
                CheckRes::Done(n) => match spec_parse(old(self)@) {
                    ParseRes::Done(fv, m) => (r matches Ok(f) && f matches Some(g) && g@ == fv
                        && final(self)@ == old(self)@.skip(m)),
                    _ => (r matches Err(Error::Other(m2)) && final(self)@ == old(self)@),
                },
            },
    {
        let ghost buf0 = self.buffer@;
        proof {
            lemma_check_parse_agree(buf0);
            assert(buf0.skip(0) =~= buf0);
        }
        let mut pos: usize = 0;
        match Frame::check(&self.buffer, &mut pos) {
            Ok(u) => {
                let mut pos2: usize = 0;
                match Frame::parse(&self.buffer, &mut pos2) {
                    Ok(f) => {
                        let mut rest: Vec<u8> = Vec::new();
                        let mut k: usize = pos2;
                        while k < self.buffer.len()
                            invariant
                                pos2 <= k <= self.buffer.len(),
                                self.buffer@ == buf0,
                                rest@ == buf0.subrange(pos2 as int, k as int),
                            decreases self.buffer.len() - k,
                        {
                            proof {
                                assert(buf0.subrange(pos2 as int, k + 1) =~= buf0.subrange(
                                    pos2 as int,
                                    k as int,
                                ).push(buf0[k as int]));
                            }
                            rest.push(self.buffer[k]);
                            k = k + 1;
                        }
                        proof {
                            assert(rest@ =~= buf0.skip(pos2 as int));
                        }
                        self.buffer = rest;
                        Ok(Some(f))
                    },
                    Err(e) => Err(e),
                }
            },
            Err(Error::Incomplete) => Ok(None),
            Err(Error::Other(m)) => Err(Error::Other(m)),
        }
    }
}

} // verus!
