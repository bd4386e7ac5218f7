//! A forward-only cursor over the elements of an array frame, handing out
//! one typed argument at a time: a string, a byte payload, or an unsigned
//! number. Command parsing walks this cursor in each command's fixed
//! argument order and then requires it to be empty.

use crate::frame::{dec_val, is_dec_u64, string_from_utf8, Frame, FrameV};
use vstd::prelude::*;
use vstd::utf8::{decode_utf8, encode_utf8, valid_utf8};

verus! {

/// Why pulling the next argument failed: the arguments ran out, or the
/// element was not of the asked-for shape.
#[derive(Debug, PartialEq)]
pub enum ParseError {
    EndOfStream,
    Other(String),
}

impl ParseError {
    /// The wording the error reports: a fixed phrase when the arguments
    /// ran out, the carried message otherwise.
    pub fn message(&self) -> (r: String)
        ensures
            match self {
                ParseError::EndOfStream => r@ == "protocol error; unexpected end of stream"@,
                ParseError::Other(m) => r@ == m@,
            },
    {
        match self {
            ParseError::EndOfStream => ("protocol error; unexpected end of stream").to_owned(),
            ParseError::Other(m) => m.clone(),
        }
    }
}

/// The text an element yields when read as a string: simple text as it
/// stands, a byte payload decoded as UTF-8.
pub open spec fn str_of(fv: FrameV) -> Option<Seq<char>> {
    match fv {
        FrameV::Simple(s) => Some(s),
        FrameV::Bulk(b) => if valid_utf8(b) {
            Some(decode_utf8(b))
        } else {
            None
        },
        _ => None,
    }
}

/// The bytes an element yields when read as a payload: simple text as its
/// UTF-8 bytes, a byte payload as it stands.
pub open spec fn bytes_of(fv: FrameV) -> Option<Seq<u8>> {
    match fv {
        FrameV::Simple(s) => Some(encode_utf8(s)),
        FrameV::Bulk(b) => Some(b),
        _ => None,
    }
}

/// The number an element yields: an integer as it stands, text read as an
/// unsigned decimal numeral.
pub open spec fn int_of(fv: FrameV) -> Option<u64> {
    match fv {
        FrameV::Integer(u) => Some(u),
        FrameV::Simple(s) => if is_dec_u64(encode_utf8(s)) {
            Some(dec_val(encode_utf8(s)) as u64)
        } else {
            None
        },
        FrameV::Bulk(b) => if is_dec_u64(b) {
            Some(dec_val(b) as u64)
        } else {
            None
        },
        _ => None,
    }
}

/// Cursor over the remaining elements of an array frame.
pub struct Parse {
    parts: Vec<Frame>,
}

impl View for Parse {
    type V = Seq<FrameV>;

    closed spec fn view(&self) -> Seq<FrameV> {
        crate::frame::frames_view_from(&self.parts, 0)
    }
}

impl Parse {
    /// Opens a cursor over an array frame's elements; any other frame
    /// shape is a protocol error.
    pub fn new(frame: Frame) -> (r: Result<Parse, ParseError>)
        ensures
            match frame@ {
                FrameV::Array(elems) => (r matches Ok(p) && p@ == elems),
                _ => (r matches Err(ParseError::Other(m))),
            },
    {
        match frame {
            Frame::Array(arr) => Ok(Parse { parts: arr }),
            _ => Err(ParseError::Other(("protocol error; expected array frame").to_owned())),
        }
    }

    /// The next raw element, or the end of the arguments.
    pub fn next(&mut self) -> (r: Result<Frame, ParseError>)
        ensures
            old(self)@.len() == 0 ==> (r matches Err(ParseError::EndOfStream) && final(self)@
                == old(self)@),
            old(self)@.len() > 0 ==> (r matches Ok(f) && f@ == old(self)@[0] && final(self)@ == old(
                self,
            )@.drop_first()),
    {
        proof {
            crate::frame::lemma_frames_view_from(&self.parts, 0);
        }
        if self.parts.len() == 0 {
            Err(ParseError::EndOfStream)
        } else {
            let f = self.parts.remove(0);
            proof {
                crate::frame::lemma_frames_view_from(&self.parts, 0);
                old(self).parts@.remove_ensures(0);
                assert(self.parts@.len() == old(self).parts@.len() - 1);
                assert(forall|j: int| 0 <= j < self.parts@.len() ==> #[trigger] self.parts@[j]
                    == old(self).parts@[j + 1]);
                assert forall|j: int| 0 <= j < self@.len() implies self@[j] == old(
                    self,
                )@.drop_first()[j] by {
                    assert(self.parts@[j] == old(self).parts@[j + 1]);
                    assert(self@[j] == self.parts@[j]@);
                    assert(old(self)@[j + 1] == old(self).parts@[j + 1]@);
                }
                assert(self@ =~= old(self)@.drop_first());
            }
            Ok(f)
        }
    }

    /// The next element read as text: simple text as-is, a byte payload
    /// decoded as UTF-8; anything else, or invalid UTF-8, is a protocol
    /// error.
    pub fn next_string(&mut self) -> (r: Result<String, ParseError>)
        ensures
            old(self)@.len() == 0 ==> (r matches Err(ParseError::EndOfStream) && final(self)@
                == old(self)@),
            old(self)@.len() > 0 ==> final(self)@ == old(self)@.drop_first() && (match str_of(
                old(self)@[0],
            ) {
                Some(text) => (r matches Ok(s) && s@ == text),
                None => (r matches Err(ParseError::Other(m))),
            }),
    {
        let f = match self.next() {
            Ok(f) => f,
            Err(e) => {
                return Err(e);
            },
        };
        match f {
            Frame::Simple(s) => Ok(s),
            Frame::Bulk(b) => {
                match string_from_utf8(b) {
                    Some(s) => Ok(s),
                    None => Err(
                        ParseError::Other(("protocol error; invalid string").to_owned()),
                    ),
                }
            },
            _ => Err(
                ParseError::Other(
                    ("protocol error; expected simple frame or bulk frame").to_owned(),
                ),
            ),
        }
    }

    /// The next element read as bytes: a byte payload as-is, simple text
    /// as its UTF-8 bytes; anything else is a protocol error.
    pub fn next_bytes(&mut self) -> (r: Result<Vec<u8>, ParseError>)
        ensures
            old(self)@.len() == 0 ==> (r matches Err(ParseError::EndOfStream) && final(self)@
                == old(self)@),
            old(self)@.len() > 0 ==> final(self)@ == old(self)@.drop_first() && (match bytes_of(
                old(self)@[0],
            ) {
                Some(data) => (r matches Ok(v) && v@ == data),
                None => (r matches Err(ParseError::Other(m))),
            }),
    {
        let f = match self.next() {
            Ok(f) => f,
            Err(e) => {
                return Err(e);
            },
        };
        match f {
            Frame::Simple(s) => Ok(s.as_str().as_bytes_vec()),
            Frame::Bulk(b) => Ok(b),
            _ => Err(
                ParseError::Other(
                    ("protocol error; expected simple frame or bulk frame").to_owned(),
                ),
            ),
        }
    }

    /// The next element read as an unsigned number: an integer as it
    /// stands, or text holding a decimal numeral; anything else is a
    /// protocol error.
    pub fn next_int(&mut self) -> (r: Result<u64, ParseError>)
        ensures
            old(self)@.len() == 0 ==> (r matches Err(ParseError::EndOfStream) && final(self)@
                == old(self)@),
            old(self)@.len() > 0 ==> final(self)@ == old(self)@.drop_first() && (match int_of(
                old(self)@[0],
            ) {
                Some(u) => (r matches Ok(v) && v == u),
                None => (r matches Err(ParseError::Other(m))),
            }),
    {
        let f = match self.next() {
            Ok(f) => f,
            Err(e) => {
                return Err(e);
            },
        };
        match f {
            Frame::Integer(u) => Ok(u),
            Frame::Simple(s) => {
                match crate::frame::dec_from_digits(&s.as_str().as_bytes_vec()) {
                    Some(v) => Ok(v),
                    None => Err(ParseError::Other(("protocol error; invalid number").to_owned())),
                }
            },
            Frame::Bulk(b) => {
                match crate::frame::dec_from_digits(&b) {
                    Some(v) => Ok(v),
                    None => Err(ParseError::Other(("protocol error; invalid number").to_owned())),
                }
            },
            _ => Err(ParseError::Other(("protocol error; expected int frame").to_owned())),
        }
    }

    /// Succeeds only when no argument remains: trailing arguments are a
    /// protocol error.
    pub fn finish(&mut self) -> (r: Result<(), ParseError>)
        ensures
            old(self)@.len() == 0 ==> (r matches Ok(u) && final(self)@ == old(self)@),
            old(self)@.len() > 0 ==> (r matches Err(ParseError::Other(m))),
    {
        match self.next() {
            Err(ParseError::EndOfStream) => Ok(()),
            Ok(f) => Err(
                ParseError::Other(
                    ("protocol error; expected end of frame, but there was more").to_owned(),
                ),
            ),
            Err(ParseError::Other(m)) => Err(ParseError::Other(m)),
        }
    }
}

} // verus!
