//! The wire-protocol frame type and its byte codec.
//!
//! A frame is one protocol value. The codec decodes a frame from a byte
//! buffer through a cursor position, and encodes a frame back to bytes.
//! `check` walks the bytes of one frame without building it, so a caller
//! can learn cheaply whether a complete frame is buffered; `parse` builds
//! the frame. Both follow the same grammar, stated by the spec functions
//! `spec_check` and `spec_parse` over the byte suffix at the cursor.

use vstd::prelude::*;
use vstd::utf8::{decode_utf8, encode_utf8, valid_utf8};

verus! {

/// One protocol value.
#[derive(Debug, PartialEq)]
pub enum Frame {
    Simple(String),
    Error(String),
    Integer(u64),
    Bulk(Vec<u8>),
    Null,
    Array(Vec<Frame>),
}

/// The mathematical value of a [`Frame`]: text as character sequences,
/// payloads as byte sequences, arrays as sequences of frame values.
pub enum FrameV {
    Simple(Seq<char>),
    Error(Seq<char>),
    Integer(u64),
    Bulk(Seq<u8>),
    Null,
    Array(Seq<FrameV>),
}

/// The values of the frames of `elems` from index `i` on.
pub open spec fn frames_view_from(elems: &Vec<Frame>, i: int) -> Seq<FrameV>
    decreases elems, elems.len() - i,
{
    if 0 <= i < elems.len() {
        seq![elems[i]@] + frames_view_from(elems, i + 1)
    } else {
        Seq::empty()
    }
}

impl View for Frame {
    type V = FrameV;

    open spec fn view(&self) -> FrameV
        decreases self,
    {
        match self {
            Frame::Simple(s) => FrameV::Simple(s@),
            Frame::Error(s) => FrameV::Error(s@),
            Frame::Integer(u) => FrameV::Integer(*u),
            Frame::Bulk(b) => FrameV::Bulk(b@),
            Frame::Null => FrameV::Null,
            Frame::Array(elems) => FrameV::Array(frames_view_from(elems, 0)),
        }
    }
}

/// An array frame's value lists the value of each element in order.
pub proof fn lemma_frames_view_from(elems: &Vec<Frame>, i: int)
    requires
        0 <= i <= elems.len(),
    ensures
        frames_view_from(elems, i).len() == elems.len() - i,
        forall|j: int| i <= j < elems.len() ==> frames_view_from(elems, i)[j - i]
            == #[trigger] elems[j]@,
    decreases elems.len() - i,
{
    if i < elems.len() {
        lemma_frames_view_from(elems, i + 1);
        let a = seq![elems[i]@];
        let b = frames_view_from(elems, i + 1);
        assert(frames_view_from(elems, i) == a + b);
        assert(frames_view_from(elems, i).len() == 1 + b.len());
        assert forall|j: int| i <= j < elems.len() implies frames_view_from(elems, i)[j - i]
            == #[trigger] elems[j]@ by {
            if j == i {
                assert((a + b)[0] == a[0]);
            } else {
                assert((a + b)[j - i] == b[j - i - 1]);
                assert(b[j - (i + 1)] == elems[j]@);
            }
        }
    }
}

/// Codec outcome: `Incomplete` means more bytes are needed before a verdict
/// can be reached; `Other` is a genuine protocol violation and carries a
/// message.
#[derive(Debug, PartialEq)]
pub enum Error {
    Incomplete,
    Other(String),
}

impl Error {
    /// The wording the error reports: a fixed phrase for an incomplete
    /// read, the carried message for a protocol violation.
    pub fn message(&self) -> (r: String)
        ensures
            match self {
                Error::Incomplete => r@ == "stream end early"@,
                Error::Other(m) => r@ == m@,
            },
    {
        match self {
            Error::Incomplete => ("stream end early").to_owned(),
            Error::Other(m) => m.clone(),
        }
    }
}

/// Outcome of walking one frame without building it: how many bytes the
/// frame occupies, or the need for more input, or a protocol violation.
pub enum CheckRes {
    Incomplete,
    Bad,
    Done(int),
}

/// Outcome of decoding one frame: its value and the bytes it occupies.
pub enum ParseRes {
    Incomplete,
    Bad,
    Done(FrameV, int),
}

/// Outcome of decoding a run of consecutive frames.
pub enum ElemsRes {
    Incomplete,
    Bad,
    Done(Seq<FrameV>, int),
}

/// Index of the first `\r\n` pair in `s`, if any pair lies wholly inside `s`.
pub open spec fn find_crlf(s: Seq<u8>) -> Option<int>
    decreases s.len(),
{
    if s.len() < 2 {
        None
    } else if s[0] == 13 && s[1] == 10 {
        Some(0)
    } else {
        match find_crlf(s.skip(1)) {
            Some(i) => Some(i + 1),
            None => None,
        }
    }
}

/// What `find_crlf` finds is the first `\r\n` pair of the sequence.
pub proof fn lemma_find_crlf(s: Seq<u8>)
    ensures
        match find_crlf(s) {
            Some(i) => 0 <= i && i + 1 < s.len() && s[i] == 13 && s[i + 1] == 10
                && (forall|j: int| 0 <= j < i ==> !(#[trigger] s[j] == 13 && s[j + 1] == 10)),
            None => forall|j: int| 0 <= j && j + 1 < s.len() ==> !(#[trigger] s[j] == 13 && s[j + 1] == 10),
        },
    decreases s.len(),
{
    if s.len() < 2 {
    } else if s[0] == 13 && s[1] == 10 {
    } else {
        let t = s.skip(1);
        lemma_find_crlf(t);
        assert(forall|j: int| 0 <= j < t.len() ==> #[trigger] t[j] == s[j + 1]);
        match find_crlf(t) {
            Some(i) => {
                assert(s[i + 1] == t[i] && s[i + 2] == t[i + 1]);
                assert forall|j: int| 0 <= j < i + 1 implies !(#[trigger] s[j] == 13 && s[j + 1]
                    == 10) by {
                    if j > 0 {
                        assert(t[j - 1] == s[j] && t[j] == s[j + 1]);
                        assert(!(t[j - 1] == 13 && t[j] == 10));
                    }
                }
            },
            None => {
                assert forall|j: int| 0 <= j && j + 1 < s.len() implies !(#[trigger] s[j] == 13
                    && s[j + 1] == 10) by {
                    if j > 0 {
                        assert(t[j - 1] == s[j] && t[j] == s[j + 1]);
                        assert(!(t[j - 1] == 13 && t[j] == 10));
                    }
                }
            },
        }
    }
}

/// A `\r\n` pair at `i`, with none before it, is the one `find_crlf` finds.
pub proof fn lemma_find_crlf_at(s: Seq<u8>, i: int)
    requires
        0 <= i,
        i + 1 < s.len(),
        s[i] == 13,
        s[i + 1] == 10,
        forall|j: int| 0 <= j < i ==> !(#[trigger] s[j] == 13 && s[j + 1] == 10),
    ensures
        find_crlf(s) == Some(i),
    decreases s.len(),
{
    if s[0] == 13 && s[1] == 10 {
        assert(i == 0);
    } else {
        assert(i != 0);
        let t = s.skip(1);
        assert(forall|j: int| 0 <= j < t.len() ==> #[trigger] t[j] == s[j + 1]);
        assert(t[i - 1] == 13 && t[i] == 10);
        assert forall|j: int| 0 <= j < i - 1 implies !(#[trigger] t[j] == 13 && t[j + 1] == 10) by {
            assert(t[j] == s[j + 1] && t[j + 1] == s[j + 2]);
            assert(!(s[j + 1] == 13 && s[j + 2] == 10));
        }
        lemma_find_crlf_at(t, i - 1);
    }
}

/// True of an ASCII decimal digit byte.
pub open spec fn is_digit(b: u8) -> bool {
    48 <= b <= 57
}

/// True when `s` is non-empty and holds only decimal digit bytes.
pub open spec fn all_digits(s: Seq<u8>) -> bool {
    forall|i: int| 0 <= i < s.len() ==> is_digit(#[trigger] s[i])
}

/// Value of a digit string read as a decimal number.
pub open spec fn dec_val(s: Seq<u8>) -> nat
    decreases s.len(),
{
    if s.len() == 0 {
        0
    } else {
        dec_val(s.drop_last()) * 10 + (if is_digit(s.last()) { (s.last() - 48) as nat } else { 0 })
    }
}

/// True when `s` is a decimal numeral whose value fits in a `u64`.
pub open spec fn is_dec_u64(s: Seq<u8>) -> bool {
    s.len() > 0 && all_digits(s) && dec_val(s) <= u64::MAX
}

/// Adds `c` bytes of preceding input to a check outcome.
pub open spec fn check_shift(c: int, r: CheckRes) -> CheckRes {
    match r {
        CheckRes::Done(m) => CheckRes::Done(c + m),
        CheckRes::Incomplete => CheckRes::Incomplete,
        CheckRes::Bad => CheckRes::Bad,
    }
}

/// Adds already-decoded frames and `c` bytes of preceding input to an
/// element-run outcome.
pub open spec fn elems_shift(vs: Seq<FrameV>, c: int, r: ElemsRes) -> ElemsRes {
    match r {
        ElemsRes::Done(fs, m) => ElemsRes::Done(vs + fs, c + m),
        ElemsRes::Incomplete => ElemsRes::Incomplete,
        ElemsRes::Bad => ElemsRes::Bad,
    }
}

/// Grammar of one frame, bounds only: how many bytes a complete frame at
/// the head of `s` occupies. Agrees with `spec_parse` on completeness.
pub open spec fn spec_check(s: Seq<u8>) -> CheckRes
    decreases s.len(), 0int, 0int,
{
    if s.len() == 0 {
        CheckRes::Incomplete
    } else {
        let t = s.skip(1);
        if s[0] == 43 || s[0] == 45 {  // '+' simple, '-' error
            match find_crlf(t) {
                None => CheckRes::Incomplete,
                Some(i) => CheckRes::Done(1 + i + 2),
            }
        } else if s[0] == 58 {  // ':' integer
            match find_crlf(t) {
                None => CheckRes::Incomplete,
                Some(i) => if is_dec_u64(t.take(i)) {
                    CheckRes::Done(1 + i + 2)
                } else {
                    CheckRes::Bad
                },
            }
        } else if s[0] == 36 {  // '$' bulk or null
            if t.len() == 0 {
                CheckRes::Incomplete
            } else if t[0] == 45 {  // '-': only the null marker line "-1"
                match find_crlf(t) {
                    None => CheckRes::Incomplete,
                    Some(i) => if t.take(i) == seq![45u8, 49u8] {
                        CheckRes::Done(1 + i + 2)
                    } else {
                        CheckRes::Bad
                    },
                }
            } else {
                match find_crlf(t) {
                    None => CheckRes::Incomplete,
                    Some(i) => {
                        let line = t.take(i);
                        if !is_dec_u64(line) || dec_val(line) > usize::MAX as nat {
                            CheckRes::Bad
                        } else {
                            let n = dec_val(line) as int;
                            if t.skip(i + 2).len() < n + 2 {
                                CheckRes::Incomplete
                            } else {
                                CheckRes::Done(1 + i + 2 + n + 2)
                            }
                        }
                    },
                }
            }
        } else if s[0] == 42 {  // '*' array or null array
            if t.len() == 0 {
                CheckRes::Incomplete
            } else if t[0] == 45 {
                match find_crlf(t) {
                    None => CheckRes::Incomplete,
                    Some(i) => if t.take(i) == seq![45u8, 49u8] {
                        CheckRes::Done(1 + i + 2)
                    } else {
                        CheckRes::Bad
                    },
                }
            } else {
                match find_crlf(t) {
                    None => CheckRes::Incomplete,
                    Some(i) => {
                        let line = t.take(i);
                        if !is_dec_u64(line) || dec_val(line) > usize::MAX as nat {
                            CheckRes::Bad
                        } else if 0 <= i && i + 2 <= t.len() {
                            check_shift(1 + i + 2, spec_check_elems(t.skip(i + 2), dec_val(line)))
                        } else {
                            CheckRes::Bad
                        }
                    },
                }
            }
        } else {
            CheckRes::Bad
        }
    }
}

/// Bounds walk of `n` consecutive frames at the head of `s`.
pub open spec fn spec_check_elems(s: Seq<u8>, n: nat) -> CheckRes
    decreases s.len(), 1int, n,
{
    if n == 0 {
        CheckRes::Done(0)
    } else {
        match spec_check(s) {
            CheckRes::Incomplete => CheckRes::Incomplete,
            CheckRes::Bad => CheckRes::Bad,
            CheckRes::Done(m) => if 1 <= m <= s.len() {
                check_shift(m, spec_check_elems(s.skip(m), (n - 1) as nat))
            } else {
                CheckRes::Bad
            },
        }
    }
}

/// Grammar of one frame: the value a complete frame at the head of `s`
/// decodes to, and how many bytes it occupies.
pub open spec fn spec_parse(s: Seq<u8>) -> ParseRes
    decreases s.len(), 0int, 0int,
{
    if s.len() == 0 {
        ParseRes::Incomplete
    } else {
        let t = s.skip(1);
        if s[0] == 43 || s[0] == 45 {  // '+' simple, '-' error
            match find_crlf(t) {
                None => ParseRes::Incomplete,
                Some(i) => {
                    let line = t.take(i);
                    if valid_utf8(line) {
                        if s[0] == 43 {
                            ParseRes::Done(FrameV::Simple(decode_utf8(line)), 1 + i + 2)
                        } else {
                            ParseRes::Done(FrameV::Error(decode_utf8(line)), 1 + i + 2)
                        }
                    } else {
                        ParseRes::Bad
                    }
                },
            }
        } else if s[0] == 58 {  // ':' integer
            match find_crlf(t) {
                None => ParseRes::Incomplete,
                Some(i) => if is_dec_u64(t.take(i)) {
                    ParseRes::Done(FrameV::Integer(dec_val(t.take(i)) as u64), 1 + i + 2)
                } else {
                    ParseRes::Bad
                },
            }
        } else if s[0] == 36 {  // '$' bulk or null
            if t.len() == 0 {
                ParseRes::Incomplete
            } else if t[0] == 45 {
                match find_crlf(t) {
                    None => ParseRes::Incomplete,
                    Some(i) => if t.take(i) == seq![45u8, 49u8] {
                        ParseRes::Done(FrameV::Null, 1 + i + 2)
                    } else {
                        ParseRes::Bad
                    },
                }
            } else {
                match find_crlf(t) {
                    None => ParseRes::Incomplete,
                    Some(i) => {
                        let line = t.take(i);
                        if !is_dec_u64(line) || dec_val(line) > usize::MAX as nat {
                            ParseRes::Bad
                        } else {
                            let n = dec_val(line) as int;
                            let rest = t.skip(i + 2);
                            if rest.len() < n + 2 {
                                ParseRes::Incomplete
                            } else {
                                ParseRes::Done(FrameV::Bulk(rest.take(n)), 1 + i + 2 + n + 2)
                            }
                        }
                    },
                }
            }
        } else if s[0] == 42 {  // '*' array or null array
            if t.len() == 0 {
                ParseRes::Incomplete
            } else if t[0] == 45 {
                match find_crlf(t) {
                    None => ParseRes::Incomplete,
                    Some(i) => if t.take(i) == seq![45u8, 49u8] {
                        ParseRes::Done(FrameV::Null, 1 + i + 2)
                    } else {
                        ParseRes::Bad
                    },
                }
            } else {
                match find_crlf(t) {
                    None => ParseRes::Incomplete,
                    Some(i) => {
                        let line = t.take(i);
                        if !is_dec_u64(line) || dec_val(line) > usize::MAX as nat {
                            ParseRes::Bad
                        } else if 0 <= i && i + 2 <= t.len() {
                            match spec_parse_elems(t.skip(i + 2), dec_val(line)) {
                                ElemsRes::Incomplete => ParseRes::Incomplete,
                                ElemsRes::Bad => ParseRes::Bad,
                                ElemsRes::Done(fs, m) => ParseRes::Done(
                                    FrameV::Array(fs),
                                    1 + i + 2 + m,
                                ),
                            }
                        } else {
                            ParseRes::Bad
                        }
                    },
                }
            }
        } else {
            ParseRes::Bad
        }
    }
}

/// Decode of `n` consecutive frames at the head of `s`.
pub open spec fn spec_parse_elems(s: Seq<u8>, n: nat) -> ElemsRes
    decreases s.len(), 1int, n,
{
    if n == 0 {
        ElemsRes::Done(seq![], 0)
    } else {
        match spec_parse(s) {
            ParseRes::Incomplete => ElemsRes::Incomplete,
            ParseRes::Bad => ElemsRes::Bad,
            ParseRes::Done(f, m) => if 1 <= m <= s.len() {
                elems_shift(seq![f], m, spec_parse_elems(s.skip(m), (n - 1) as nat))
            } else {
                ElemsRes::Bad
            },
        }
    }
}

/// A checked frame occupies at least one byte and no more than `s` holds.
pub proof fn lemma_spec_check_bounds(s: Seq<u8>)
    ensures
        spec_check(s) matches CheckRes::Done(n) ==> 1 <= n <= s.len(),
    decreases s.len(), 0int, 0int,
{
    if s.len() == 0 {
    } else {
        let t = s.skip(1);
        match find_crlf(t) {
            Some(i) => {
                lemma_find_crlf(t);
            },
            None => {},
        }
        if s[0] == 42 && t.len() > 0 && t[0] != 45 {
            match find_crlf(t) {
                Some(i) => {
                    let line = t.take(i);
                    if is_dec_u64(line) && dec_val(line) <= usize::MAX as nat && 0 <= i && i + 2
                        <= t.len() {
                        lemma_spec_check_elems_bounds(t.skip(i + 2), dec_val(line));
                    }
                },
                None => {},
            }
        }
    }
}

/// A checked run of frames occupies no more bytes than `s` holds.
pub proof fn lemma_spec_check_elems_bounds(s: Seq<u8>, n: nat)
    ensures
        spec_check_elems(s, n) matches CheckRes::Done(m) ==> 0 <= m <= s.len(),
    decreases s.len(), 1int, n,
{
    if n == 0 {
    } else {
        lemma_spec_check_bounds(s);
        match spec_check(s) {
            CheckRes::Done(m) => {
                if 1 <= m <= s.len() {
                    lemma_spec_check_elems_bounds(s.skip(m), (n - 1) as nat);
                }
            },
            _ => {},
        }
    }
}

/// A complete frame occupies at least one byte and no more than `s` holds.
pub proof fn lemma_spec_parse_bounds(s: Seq<u8>)
    ensures
        spec_parse(s) matches ParseRes::Done(f, n) ==> 1 <= n <= s.len(),
    decreases s.len(), 0int, 0int,
{
    if s.len() == 0 {
    } else {
        let t = s.skip(1);
        match find_crlf(t) {
            Some(i) => {
                lemma_find_crlf(t);
            },
            None => {},
        }
        if s[0] == 42 && t.len() > 0 && t[0] != 45 {
            match find_crlf(t) {
                Some(i) => {
                    let line = t.take(i);
                    if is_dec_u64(line) && dec_val(line) <= usize::MAX as nat && 0 <= i && i + 2
                        <= t.len() {
                        lemma_spec_parse_elems_bounds(t.skip(i + 2), dec_val(line));
                    }
                },
                None => {},
            }
        }
    }
}

/// A complete run of frames occupies no more bytes than `s` holds.
pub proof fn lemma_spec_parse_elems_bounds(s: Seq<u8>, n: nat)
    ensures
        spec_parse_elems(s, n) matches ElemsRes::Done(fs, m) ==> 0 <= m <= s.len() && fs.len()
            == n,
    decreases s.len(), 1int, n,
{
    if n == 0 {
    } else {
        lemma_spec_parse_bounds(s);
        match spec_parse(s) {
            ParseRes::Done(f, m) => {
                if 1 <= m <= s.len() {
                    lemma_spec_parse_elems_bounds(s.skip(m), (n - 1) as nat);
                }
            },
            _ => {},
        }
    }
}

/// Reads one byte at the cursor and advances past it.
pub fn get_u8(src: &Vec<u8>, pos: &mut usize) -> (r: Result<u8, Error>)
    requires
        *old(pos) <= src.len(),
    ensures
        *old(pos) < src.len() ==> (r matches Ok(b) && b == src@[*old(pos) as int]
            && *final(pos) == *old(pos) + 1),
        *old(pos) == src.len() ==> (r matches Err(Error::Incomplete) && *final(pos) == *old(pos)),
{
    if *pos < src.len() {
        let b = src[*pos];
        *pos = *pos + 1;
        Ok(b)
    } else {
        Err(Error::Incomplete)
    }
}

/// Reads the byte at the cursor without advancing.
pub fn peek_u8(src: &Vec<u8>, pos: &mut usize) -> (r: Result<u8, Error>)
    requires
        *old(pos) <= src.len(),
    ensures
        *final(pos) == *old(pos),
        *old(pos) < src.len() ==> (r matches Ok(b) && b == src@[*old(pos) as int]),
        *old(pos) == src.len() ==> (r matches Err(Error::Incomplete)),
{
    if *pos < src.len() {
        Ok(src[*pos])
    } else {
        Err(Error::Incomplete)
    }
}

/// Advances the cursor by `n` bytes, or reports that fewer are buffered.
pub fn skip(src: &Vec<u8>, pos: &mut usize, n: usize) -> (r: Result<(), Error>)
    requires
        *old(pos) <= src.len(),
    ensures
        n <= src.len() - *old(pos) ==> (r matches Ok(u) && *final(pos) == *old(pos) + n),
        n > src.len() - *old(pos) ==> (r matches Err(Error::Incomplete) && *final(pos) == *old(
            pos,
        )),
{
    if n <= src.len() - *pos {
        *pos = *pos + n;
        Ok(())
    } else {
        Err(Error::Incomplete)
    }
}

/// Appending a digit multiplies the value by ten and adds the digit.
proof fn lemma_dec_val_step(s: Seq<u8>, k: int)
    requires
        0 <= k < s.len(),
    ensures
        dec_val(s.take(k + 1)) == dec_val(s.take(k)) * 10 + (if is_digit(s[k]) {
            (s[k] - 48) as nat
        } else {
            0
        }),
{
    assert(s.take(k + 1).drop_last() =~= s.take(k));
    assert(s.take(k + 1).last() == s[k]);
}

/// A numeral's value only grows as digits are appended.
proof fn lemma_dec_val_mono(s: Seq<u8>, k: int)
    requires
        0 <= k <= s.len(),
    ensures
        dec_val(s.take(k)) <= dec_val(s),
    decreases s.len() - k,
{
    if k < s.len() {
        lemma_dec_val_step(s, k);
        assert(dec_val(s.take(k)) <= dec_val(s.take(k)) * 10) by (nonlinear_arith);
        lemma_dec_val_mono(s, k + 1);
    } else {
        assert(s.take(k) =~= s);
    }
}

/// Reads a numeral from the byte sequence `line`: its value when `line` is
/// a decimal numeral that fits in a `u64`, and nothing otherwise.
pub(crate) fn dec_from_digits(line: &Vec<u8>) -> (r: Option<u64>)
    ensures
        is_dec_u64(line@) ==> (r matches Some(v) && v == dec_val(line@)),
        !is_dec_u64(line@) ==> r is None,
{
    if line.len() == 0 {
        return None;
    }
    let mut acc: u64 = 0;
    let mut k: usize = 0;
    while k < line.len()
        invariant
            0 <= k <= line.len(),
            acc == dec_val(line@.take(k as int)),
            forall|j: int| 0 <= j < k ==> is_digit(#[trigger] line@[j]),
        decreases line.len() - k,
    {
        let b = line[k];
        if b < 48 || b > 57 {
            assert(!all_digits(line@));
            return None;
        }
        let d: u64 = (b - 48) as u64;
        proof {
            lemma_dec_val_step(line@, k as int);
        }
        if acc > (u64::MAX - d) / 10 {
            proof {
                assert(acc * 10 + d > u64::MAX) by (nonlinear_arith)
                    requires
                        acc > (u64::MAX - d) / 10,
                        d <= 9,
                ;
                lemma_dec_val_mono(line@, k + 1);
            }
            return None;
        }
        proof {
            assert(acc * 10 + d <= u64::MAX) by (nonlinear_arith)
                requires
                    acc <= (u64::MAX - d) / 10,
                    d <= 9,
            ;
        }
        acc = acc * 10 + d;
        k = k + 1;
    }
    assert(line@.take(k as int) =~= line@);
    Some(acc)
}

/// Reads a line and interprets it as an unsigned decimal number; a line
/// that is not a numeral, or one whose value does not fit, is a protocol
/// violation rather than an incomplete read.
pub fn get_decimal(src: &Vec<u8>, pos: &mut usize) -> (r: Result<u64, Error>)
    requires
        *old(pos) <= src.len(),
    ensures
        *old(pos) <= *final(pos) <= src.len(),
        match find_crlf(src@.skip(*old(pos) as int)) {
            Some(i) => {
                let line = src@.skip(*old(pos) as int).take(i);
                if is_dec_u64(line) {
                    r matches Ok(v) && v == dec_val(line) && *final(pos) == *old(pos) + i + 2
                } else {
                    r matches Err(Error::Other(m))
                }
            },
            None => (r matches Err(Error::Incomplete) && *final(pos) == *old(pos)),
        },
{
    let line = match get_line(src, pos) {
        Ok(line) => line,
        Err(e) => {
            return Err(e);
        },
    };
    match dec_from_digits(&line) {
        Some(v) => Ok(v),
        None => Err(Error::Other(("protocol error; invalid frame format").to_owned())),
    }
}

/// Reads up to the next `\r\n`, returns the bytes before it, and advances
/// past the pair. Without a complete `\r\n` in the buffer the line is
/// incomplete and the cursor does not move.
pub fn get_line(src: &Vec<u8>, pos: &mut usize) -> (r: Result<Vec<u8>, Error>)
    requires
        *old(pos) <= src.len(),
    ensures
        *old(pos) <= *final(pos) <= src.len(),
        match find_crlf(src@.skip(*old(pos) as int)) {
            Some(i) => (r matches Ok(line) && line@ == src@.skip(*old(pos) as int).take(i)
                && *final(pos) == *old(pos) + i + 2),
            None => (r matches Err(Error::Incomplete) && *final(pos) == *old(pos)),
        },
{
    let ghost suffix = src@.skip(*old(pos) as int);
    let start: usize = *pos;
    let mut i: usize = *pos;
    while i < src.len() && i + 1 < src.len()
        invariant
            start <= i <= src.len(),
            start == *pos,
            *pos == *old(pos),
            *pos <= src.len(),
            suffix == src@.skip(start as int),
            forall|j: int| 0 <= j < i - start ==> !(#[trigger] suffix[j] == 13 && suffix[j + 1] == 10),
        decreases src.len() - i,
    {
        if src[i] == 13 && src[i + 1] == 10 {
            let ghost rel = i - start;
            proof {
                assert(suffix[rel as int] == 13 && suffix[rel + 1] == 10);
                lemma_find_crlf_at(suffix, rel as int);
            }
            let mut line: Vec<u8> = Vec::new();
            let mut k: usize = start;
            while k < i
                invariant
                    start <= k <= i,
                    i + 1 < src.len(),
                    line@ == src@.subrange(start as int, k as int),
                decreases i - k,
            {
                line.push(src[k]);
                k = k + 1;
            }
            assert(line@ =~= suffix.take(rel as int));
            *pos = i + 2;
            return Ok(line);
        }
        i = i + 1;
    }
    proof {
        lemma_find_crlf(suffix);
        assert(forall|j: int| 0 <= j && j + 1 < suffix.len() ==> !(#[trigger] suffix[j] == 13
            && suffix[j + 1] == 10));
        if find_crlf(suffix) is Some {
            let w = find_crlf(suffix)->Some_0;
            assert(!(suffix[w] == 13 && suffix[w + 1] == 10));
        }
    }
    Err(Error::Incomplete)
}

/// Decimal numeral of `n`: most significant digit first, no leading zeros.
pub open spec fn dec_rep(n: nat) -> Seq<u8>
    decreases n,
{
    if n < 10 {
        seq![(48 + n) as u8]
    } else {
        dec_rep(n / 10).push((48 + n % 10) as u8)
    }
}

/// The byte encoding of one frame value.
pub open spec fn spec_encode(f: FrameV) -> Seq<u8>
    decreases f,
{
    match f {
        FrameV::Simple(text) => seq![43u8] + encode_utf8(text) + seq![13u8, 10u8],
        FrameV::Error(text) => seq![45u8] + encode_utf8(text) + seq![13u8, 10u8],
        FrameV::Integer(u) => seq![58u8] + dec_rep(u as nat) + seq![13u8, 10u8],
        FrameV::Bulk(data) => seq![36u8] + dec_rep(data.len()) + seq![13u8, 10u8] + data + seq![
            13u8,
            10u8,
        ],
        FrameV::Null => seq![36u8, 45u8, 49u8, 13u8, 10u8],
        FrameV::Array(elems) => seq![42u8] + dec_rep(elems.len()) + seq![13u8, 10u8]
            + spec_encode_elems_from(elems, 0),
    }
}

/// The byte encoding of the frame values of `elems` from index `i` on.
pub open spec fn spec_encode_elems_from(elems: Seq<FrameV>, i: int) -> Seq<u8>
    decreases elems, elems.len() - i,
{
    if 0 <= i < elems.len() {
        spec_encode(elems[i]) + spec_encode_elems_from(elems, i + 1)
    } else {
        Seq::empty()
    }
}

/// True when no character of `s` is `\r` or `\n`.
pub open spec fn text_ok(s: Seq<char>) -> bool {
    forall|i: int| 0 <= i < s.len() ==> #[trigger] s[i] != '\r' && s[i] != '\n'
}

/// A frame value that the codec can carry: text lines hold no line break,
/// and every length fits the platform's size type.
pub open spec fn frame_wf(f: FrameV) -> bool
    decreases f,
{
    match f {
        FrameV::Simple(text) => text_ok(text),
        FrameV::Error(text) => text_ok(text),
        FrameV::Integer(u) => true,
        FrameV::Bulk(data) => data.len() <= usize::MAX,
        FrameV::Null => true,
        FrameV::Array(elems) => elems.len() <= usize::MAX && (forall|i: int|
            0 <= i < elems.len() ==> frame_wf(#[trigger] elems[i])),
    }
}

/// The numeral of `n` is one or more digits and reads back as `n`.
pub proof fn lemma_dec_rep(n: nat)
    ensures
        dec_rep(n).len() >= 1,
        all_digits(dec_rep(n)),
        dec_val(dec_rep(n)) == n,
    decreases n,
{
    if n < 10 {
        let s = dec_rep(n);
        assert(s.drop_last() =~= Seq::<u8>::empty());
        assert(s.last() == (48 + n) as u8);
        assert(is_digit(s.last()));
        assert(dec_val(s.drop_last()) == 0);
        assert(dec_val(s) == (s.last() - 48) as nat);
    } else {
        lemma_dec_rep(n / 10);
        let pre = dec_rep(n / 10);
        let s = dec_rep(n);
        assert(s.drop_last() =~= pre);
        assert(s.last() == (48 + n % 10) as u8);
        assert(is_digit(s.last()));
        assert((s.last() - 48) as nat == n % 10);
        assert(dec_val(s) == dec_val(pre) * 10 + (n % 10));
        assert(n == (n / 10) * 10 + n % 10) by (nonlinear_arith);
        assert(forall|i: int| 0 <= i < s.len() ==> is_digit(#[trigger] s[i]));
    }
}

/// The first `\r\n` after a line that holds no `\r` is the pair that ends it.
pub proof fn lemma_find_crlf_clean(line: Seq<u8>, rest: Seq<u8>)
    requires
        forall|j: int| 0 <= j < line.len() ==> #[trigger] line[j] != 13,
    ensures
        find_crlf(line + seq![13u8, 10u8] + rest) == Some(line.len() as int),
{
    let s = line + seq![13u8, 10u8] + rest;
    let n = line.len() as int;
    assert(s[n] == 13 && s[n + 1] == 10);
    assert forall|j: int| 0 <= j < n implies !(#[trigger] s[j] == 13 && s[j + 1] == 10) by {
        assert(s[j] == line[j]);
    }
    lemma_find_crlf_at(s, n);
}

/// UTF-8 text without line-break characters encodes to bytes without the
/// line-break bytes: 13 and 10 appear in UTF-8 only as `\r` and `\n`.
pub proof fn lemma_utf8_clean(text: Seq<char>)
    requires
        text_ok(text),
    ensures
        forall|j: int| 0 <= j < encode_utf8(text).len() ==> #[trigger] encode_utf8(text)[j] != 13
            && encode_utf8(text)[j] != 10,
    decreases text.len(),
{
    if text.len() == 0 {
    } else {
        let c = text[0] as u32;
        vstd::utf8::char_is_scalar(text[0]);
        let e0 = vstd::utf8::encode_scalar(c);
        assert(forall|y: u8| #![auto] (0x80u8 | y) >= 0x80) by (bit_vector);
        assert(forall|y: u8| #![auto] (0xc0u8 | y) >= 0xc0) by (bit_vector);
        assert(forall|y: u8| #![auto] (0xe0u8 | y) >= 0xe0) by (bit_vector);
        assert(forall|y: u8| #![auto] (0xf0u8 | y) >= 0xf0) by (bit_vector);
        assert forall|j: int| 0 <= j < e0.len() implies #[trigger] e0[j] != 13 && e0[j] != 10 by {
            if vstd::utf8::has_width_1_encoding(c) {
                assert((c & 0x7f) == c) by (bit_vector)
                    requires
                        c <= 0x7f,
                ;
                assert(e0[j] == c as u8);
                assert('\r' as u32 == 13 && '\n' as u32 == 10);
                vstd::utf8::char_u32_cast(text[0], c);
                if c as u8 == 13 {
                    assert(c == 13);
                    assert(text[0] == '\r') by {
                        assert((13u32 as char) == '\r');
                    }
                }
                if c as u8 == 10 {
                    assert(c == 10);
                    assert(text[0] == '\n') by {
                        assert((10u32 as char) == '\n');
                    }
                }
            }
        }
        lemma_utf8_clean(text.drop_first());
        let erest = encode_utf8(text.drop_first());
        assert(encode_utf8(text) == e0 + erest);
        assert forall|j: int| 0 <= j < encode_utf8(text).len() implies #[trigger] encode_utf8(
            text,
        )[j] != 13 && encode_utf8(text)[j] != 10 by {
            if j < e0.len() {
                assert(encode_utf8(text)[j] == e0[j]);
            } else {
                assert(encode_utf8(text)[j] == erest[j - e0.len()]);
            }
        }
    }
}

/// Round trip: parsing the encoding of a well-formed frame value, whatever
/// bytes follow it, yields that value back and consumes exactly its
/// encoding.
pub proof fn lemma_parse_encode(f: FrameV, rest: Seq<u8>)
    requires
        frame_wf(f),
    ensures
        spec_parse(spec_encode(f) + rest) == ParseRes::Done(f, spec_encode(f).len() as int),
    decreases f,
{
    let e = spec_encode(f);
    let s = e + rest;
    match f {
        FrameV::Simple(text) => {
            let eb = encode_utf8(text);
            let t = s.skip(1);
            assert(t =~= eb + seq![13u8, 10u8] + rest);
            lemma_utf8_clean(text);
            lemma_find_crlf_clean(eb, rest);
            assert(t.take(eb.len() as int) =~= eb);
            vstd::utf8::encode_utf8_valid_utf8(text);
            vstd::utf8::encode_utf8_decode_utf8(text);
            assert(s[0] == 43);
        },
        FrameV::Error(text) => {
            let eb = encode_utf8(text);
            let t = s.skip(1);
            assert(t =~= eb + seq![13u8, 10u8] + rest);
            lemma_utf8_clean(text);
            lemma_find_crlf_clean(eb, rest);
            assert(t.take(eb.len() as int) =~= eb);
            vstd::utf8::encode_utf8_valid_utf8(text);
            vstd::utf8::encode_utf8_decode_utf8(text);
            assert(s[0] == 45);
        },
        FrameV::Integer(u) => {
            let rep = dec_rep(u as nat);
            lemma_dec_rep(u as nat);
            let t = s.skip(1);
            assert(t =~= rep + seq![13u8, 10u8] + rest);
            assert(forall|j: int| 0 <= j < rep.len() ==> #[trigger] rep[j] != 13);
            lemma_find_crlf_clean(rep, rest);
            assert(t.take(rep.len() as int) =~= rep);
            assert(s[0] == 58);
        },
        FrameV::Bulk(data) => {
            let rep = dec_rep(data.len());
            lemma_dec_rep(data.len());
            let t = s.skip(1);
            assert(t =~= rep + seq![13u8, 10u8] + (data + seq![13u8, 10u8] + rest));
            assert(forall|j: int| 0 <= j < rep.len() ==> #[trigger] rep[j] != 13);
            lemma_find_crlf_clean(rep, data + seq![13u8, 10u8] + rest);
            let i = rep.len() as int;
            assert(t.take(i) =~= rep);
            assert(s[0] == 36);
            assert(is_digit(rep[0]));
            assert(t[0] != 45);
            assert(t.skip(i + 2) =~= data + seq![13u8, 10u8] + rest);
            assert(t.skip(i + 2).take(data.len() as int) =~= data);
            assert(e.len() == 1 + i + 2 + data.len() + 2);
        },
        FrameV::Null => {
            let t = s.skip(1);
            assert(t =~= seq![45u8, 49u8] + seq![13u8, 10u8] + rest);
            lemma_find_crlf_clean(seq![45u8, 49u8], rest);
            assert(t.take(2) =~= seq![45u8, 49u8]);
            assert(s[0] == 36 && t[0] == 45);
        },
        FrameV::Array(elems) => {
            let rep = dec_rep(elems.len());
            lemma_dec_rep(elems.len());
            let ee = spec_encode_elems_from(elems, 0);
            let t = s.skip(1);
            assert(t =~= rep + seq![13u8, 10u8] + (ee + rest));
            assert(forall|j: int| 0 <= j < rep.len() ==> #[trigger] rep[j] != 13);
            lemma_find_crlf_clean(rep, ee + rest);
            let i = rep.len() as int;
            assert(t.take(i) =~= rep);
            assert(s[0] == 42);
            assert(is_digit(rep[0]));
            assert(t[0] != 45);
            assert(t.skip(i + 2) =~= ee + rest);
            lemma_parse_encode_elems(elems, 0, rest);
            assert(elems.skip(0) =~= elems);
            assert(e.len() == 1 + i + 2 + ee.len());
        },
    }
}

/// Round trip for a run of element encodings: parsing them back, whatever
/// bytes follow, yields the elements from index `j` on.
pub proof fn lemma_parse_encode_elems(elems: Seq<FrameV>, j: int, rest: Seq<u8>)
    requires
        0 <= j <= elems.len(),
        forall|k: int| 0 <= k < elems.len() ==> frame_wf(#[trigger] elems[k]),
    ensures
        spec_parse_elems(
            spec_encode_elems_from(elems, j) + rest,
            (elems.len() - j) as nat,
        ) == ElemsRes::Done(elems.skip(j), spec_encode_elems_from(elems, j).len() as int),
    decreases elems, elems.len() - j,
{
    let e = spec_encode_elems_from(elems, j);
    let s = e + rest;
    if j == elems.len() {
        assert(e =~= Seq::<u8>::empty());
        assert(s =~= rest);
        assert(elems.skip(j) =~= Seq::<FrameV>::empty());
    } else {
        let e0 = spec_encode(elems[j]);
        let e1 = spec_encode_elems_from(elems, j + 1);
        assert(e == e0 + e1);
        assert(s =~= e0 + (e1 + rest));
        lemma_parse_encode(elems[j], e1 + rest);
        lemma_spec_parse_bounds(s);
        assert(s.skip(e0.len() as int) =~= e1 + rest);
        lemma_parse_encode_elems(elems, j + 1, rest);
        assert(seq![elems[j]] + elems.skip(j + 1) =~= elems.skip(j));
    }
}

/// `check` and `parse` follow one grammar: parse never needs more input
/// where check succeeded, both consume the same bytes, and what check
/// refuses, parse refuses. Where check succeeds, parse on the same bytes
/// either yields a frame over the same span or reports a protocol
/// violation (a text line that is not UTF-8, which check does not decode) —
/// never an incomplete read.
pub proof fn lemma_check_parse_agree(s: Seq<u8>)
    ensures
        spec_parse(s) is Incomplete ==> spec_check(s) is Incomplete,
        spec_check(s) is Bad ==> spec_parse(s) is Bad,
        spec_parse(s) matches ParseRes::Done(f, n) ==> spec_check(s) == CheckRes::Done(n),
        spec_check(s) matches CheckRes::Done(n) ==> (spec_parse(s) is Bad || (spec_parse(s)
            matches ParseRes::Done(f, m) && m == n)),
    decreases s.len(), 0int, 0int,
{
    if s.len() == 0 {
    } else {
        let t = s.skip(1);
        lemma_find_crlf(t);
        if s[0] == 42 && t.len() > 0 && t[0] != 45 {
            match find_crlf(t) {
                Some(i) => {
                    let line = t.take(i);
                    if is_dec_u64(line) && dec_val(line) <= usize::MAX as nat && 0 <= i && i + 2
                        <= t.len() {
                        lemma_check_parse_agree_elems(t.skip(i + 2), dec_val(line));
                    }
                },
                None => {},
            }
        }
    }
}

/// The agreement of `check` and `parse`, over a run of consecutive frames.
pub proof fn lemma_check_parse_agree_elems(s: Seq<u8>, cnt: nat)
    ensures
        spec_parse_elems(s, cnt) is Incomplete ==> spec_check_elems(s, cnt) is Incomplete,
        spec_check_elems(s, cnt) is Bad ==> spec_parse_elems(s, cnt) is Bad,
        spec_parse_elems(s, cnt) matches ElemsRes::Done(fs, n) ==> spec_check_elems(s, cnt)
            == CheckRes::Done(n),
        spec_check_elems(s, cnt) matches CheckRes::Done(n) ==> (spec_parse_elems(s, cnt) is Bad
            || (spec_parse_elems(s, cnt) matches ElemsRes::Done(fs, m) && m == n)),
    decreases s.len(), 1int, cnt,
{
    if cnt == 0 {
    } else {
        lemma_check_parse_agree(s);
        lemma_spec_parse_bounds(s);
        lemma_spec_check_bounds(s);
        match spec_check(s) {
            CheckRes::Done(m) => {
                if 1 <= m <= s.len() {
                    lemma_check_parse_agree_elems(s.skip(m), (cnt - 1) as nat);
                }
            },
            _ => {},
        }
    }
}

/// Truncating a sequence keeps the first `\r\n` pair if the pair fits, and
/// otherwise leaves none.
proof fn lemma_find_crlf_take(t: Seq<u8>, k: int)
    requires
        0 <= k <= t.len(),
    ensures
        match find_crlf(t) {
            Some(i) => if k >= i + 2 {
                find_crlf(t.take(k)) == Some(i)
            } else {
                find_crlf(t.take(k)) is None
            },
            None => find_crlf(t.take(k)) is None,
        },
{
    lemma_find_crlf(t);
    let u = t.take(k);
    lemma_find_crlf(u);
    match find_crlf(t) {
        Some(i) => {
            if k >= i + 2 {
                lemma_find_crlf_at(u, i);
            } else {
                match find_crlf(u) {
                    Some(w) => {
                        assert(u[w] == t[w] && u[w + 1] == t[w + 1]);
                        assert(false);
                    },
                    None => {},
                }
            }
        },
        None => {
            match find_crlf(u) {
                Some(w) => {
                    assert(u[w] == t[w] && u[w + 1] == t[w + 1]);
                    assert(false);
                },
                None => {},
            }
        },
    }
}

/// A complete frame is decoded from its own bytes alone: truncating the
/// input anywhere past the frame leaves the decode unchanged.
pub proof fn lemma_parse_take(s: Seq<u8>, m: int)
    requires
        spec_parse(s) is Done,
        spec_parse(s)->Done_1 <= m <= s.len(),
    ensures
        spec_parse(s.take(m)) == spec_parse(s),
    decreases s.len(), 0int, 0int,
{
    let n = spec_parse(s)->Done_1;
    lemma_spec_parse_bounds(s);
    let p = s.take(m);
    let t = s.skip(1);
    let tp = p.skip(1);
    assert(tp =~= t.take(m - 1));
    lemma_find_crlf(t);
    lemma_find_crlf_take(t, m - 1);
    match find_crlf(t) {
        Some(i) => {
            if m - 1 >= i + 2 {
                assert(tp.take(i) =~= t.take(i));
            }
        },
        None => {},
    }
    if s[0] == 36 && t.len() > 0 && t[0] != 45 {
        // bulk: the data window is inside the first n bytes
        match find_crlf(t) {
            Some(i) => {
                let line = t.take(i);
                if is_dec_u64(line) && dec_val(line) <= usize::MAX as nat {
                    let blen = dec_val(line) as int;
                    assert(tp.skip(i + 2) =~= t.skip(i + 2).take(m - 1 - i - 2));
                    assert(tp.skip(i + 2).take(blen) =~= t.skip(i + 2).take(blen));
                }
            },
            None => {},
        }
    }
    if s[0] == 42 && t.len() > 0 && t[0] != 45 {
        match find_crlf(t) {
            Some(i) => {
                let line = t.take(i);
                if is_dec_u64(line) && dec_val(line) <= usize::MAX as nat && 0 <= i && i + 2
                    <= t.len() {
                    lemma_spec_parse_elems_bounds(t.skip(i + 2), dec_val(line));
                    match spec_parse_elems(t.skip(i + 2), dec_val(line)) {
                        ElemsRes::Done(fs, m2) => {
                            assert(n == 1 + i + 2 + m2);
                            assert(tp.skip(i + 2) =~= t.skip(i + 2).take(m - 1 - i - 2));
                            lemma_parse_take_elems(t.skip(i + 2), dec_val(line), m - 1 - i - 2);
                        },
                        _ => {},
                    }
                }
            },
            None => {},
        }
    }
}

/// Truncation stability for a run of consecutive frames.
pub proof fn lemma_parse_take_elems(s: Seq<u8>, cnt: nat, m: int)
    requires
        spec_parse_elems(s, cnt) is Done,
        spec_parse_elems(s, cnt)->Done_1 <= m <= s.len(),
    ensures
        spec_parse_elems(s.take(m), cnt) == spec_parse_elems(s, cnt),
    decreases s.len(), 1int, cnt,
{
    if cnt == 0 {
    } else {
        lemma_spec_parse_bounds(s);
        lemma_spec_parse_elems_bounds(s, cnt);
        match spec_parse(s) {
            ParseRes::Done(f, n0) => {
                if 1 <= n0 <= s.len() {
                    lemma_spec_parse_elems_bounds(s.skip(n0), (cnt - 1) as nat);
                    match spec_parse_elems(s.skip(n0), (cnt - 1) as nat) {
                        ElemsRes::Done(fs2, m2) => {
                            lemma_parse_take(s, m);
                            assert(s.take(m).skip(n0) =~= s.skip(n0).take(m - n0));
                            lemma_parse_take_elems(s.skip(n0), (cnt - 1) as nat, m - n0);
                        },
                        _ => {},
                    }
                }
            },
            _ => {},
        }
    }
}

/// A strict prefix of a complete frame's bytes is an incomplete read.
pub proof fn lemma_parse_prefix(s: Seq<u8>, m: int)
    requires
        spec_parse(s) is Done,
        0 <= m < spec_parse(s)->Done_1,
    ensures
        spec_parse(s.take(m)) is Incomplete,
    decreases s.len(), 0int, 0int,
{
    let n = spec_parse(s)->Done_1;
    lemma_spec_parse_bounds(s);
    let p = s.take(m);
    if m == 0 {
    } else {
        let t = s.skip(1);
        let tp = p.skip(1);
        assert(tp =~= t.take(m - 1));
        lemma_find_crlf(t);
        lemma_find_crlf_take(t, m - 1);
        match find_crlf(t) {
            Some(i) => {
                if m - 1 >= i + 2 {
                    assert(tp.take(i) =~= t.take(i));
                }
            },
            None => {},
        }
        if s[0] == 36 && t.len() > 0 && t[0] != 45 {
            match find_crlf(t) {
                Some(i) => {
                    if m - 1 >= i + 2 {
                        assert(tp.skip(i + 2) =~= t.skip(i + 2).take(m - 1 - i - 2));
                    }
                },
                None => {},
            }
        }
        if s[0] == 42 && t.len() > 0 && t[0] != 45 {
            match find_crlf(t) {
                Some(i) => {
                    let line = t.take(i);
                    if m - 1 >= i + 2 && is_dec_u64(line) && dec_val(line) <= usize::MAX as nat
                        && 0 <= i && i + 2 <= t.len() {
                        assert(tp.skip(i + 2) =~= t.skip(i + 2).take(m - 1 - i - 2));
                        lemma_parse_prefix_elems(t.skip(i + 2), dec_val(line), m - 1 - i - 2);
                    }
                },
                None => {},
            }
        }
    }
}

/// A strict prefix of a complete run of frames is an incomplete read.
pub proof fn lemma_parse_prefix_elems(s: Seq<u8>, cnt: nat, m: int)
    requires
        spec_parse_elems(s, cnt) is Done,
        0 <= m < spec_parse_elems(s, cnt)->Done_1,
    ensures
        spec_parse_elems(s.take(m), cnt) is Incomplete,
    decreases s.len(), 1int, cnt,
{
    lemma_spec_parse_bounds(s);
    lemma_spec_parse_elems_bounds(s, cnt);
    match spec_parse(s) {
        ParseRes::Done(f, n0) => {
            if m < n0 {
                lemma_parse_prefix(s, m);
            } else {
                lemma_parse_take(s, m);
                assert(s.take(m).skip(n0) =~= s.skip(n0).take(m - n0));
                lemma_spec_parse_elems_bounds(s.skip(n0), (cnt - 1) as nat);
                lemma_parse_prefix_elems(s.skip(n0), (cnt - 1) as nat, m - n0);
            }
        },
        _ => {},
    }
}

/// Feeding a frame's encoding byte by byte: every strict prefix is an
/// incomplete read, and the whole encoding yields exactly the frame.
pub proof fn lemma_prefix_incomplete(f: FrameV, m: int)
    requires
        frame_wf(f),
        0 <= m < spec_encode(f).len(),
    ensures
        spec_parse(spec_encode(f).take(m)) is Incomplete,
        spec_parse(spec_encode(f)) == ParseRes::Done(f, spec_encode(f).len() as int),
{
    lemma_parse_encode(f, Seq::empty());
    assert(spec_encode(f) + Seq::empty() =~= spec_encode(f));
    lemma_parse_prefix(spec_encode(f), m);
}

/// Appends all of `data` to `out`.
fn push_all(out: &mut Vec<u8>, data: &Vec<u8>)
    ensures
        final(out)@ == old(out)@ + data@,
{
    let mut i: usize = 0;
    while i < data.len()
        invariant
            i <= data.len(),
            out@ == old(out)@ + data@.take(i as int),
        decreases data.len() - i,
    {
        proof {
            assert(data@.take(i + 1) =~= data@.take(i as int).push(data@[i as int]));
        }
        out.push(data[i]);
        i = i + 1;
    }
    proof {
        assert(data@.take(data@.len() as int) =~= data@);
    }
}

/// Appends the decimal numeral of `v` to `out`.
fn push_decimal(out: &mut Vec<u8>, v: u64)
    ensures
        final(out)@ == old(out)@ + dec_rep(v as nat),
    decreases v,
{
    if v < 10 {
        out.push((48 + v) as u8);
        proof {
            assert(old(out)@ + dec_rep(v as nat) =~= old(out)@.push((48 + v) as u8));
        }
    } else {
        push_decimal(out, v / 10);
        out.push(48 + (v % 10) as u8);
        proof {
            assert(old(out)@ + dec_rep(v as nat) =~= (old(out)@ + dec_rep((v / 10) as nat)).push(
                (48 + (v % 10)) as u8,
            ));
        }
    }
}

/// Appends `\r\n` to `out`.
fn push_crlf(out: &mut Vec<u8>)
    ensures
        final(out)@ == old(out)@ + seq![13u8, 10u8],
{
    out.push(13);
    out.push(10);
    proof {
        assert(old(out)@ + seq![13u8, 10u8] =~= old(out)@.push(13u8).push(10u8));
    }
}

/// Relies on `String::from_utf8`: it succeeds exactly on UTF-8-valid bytes
/// and returns the text that those bytes encode.
#[verifier::external_body]
pub(crate) fn string_from_utf8(v: Vec<u8>) -> (r: Option<String>)
    ensures
        r matches Some(s) ==> valid_utf8(v@) && s@ == decode_utf8(v@),
        r is None ==> !valid_utf8(v@),
{
    String::from_utf8(v).ok()
}

impl Frame {
    /// Walks one complete frame at the cursor without building it, so that
    /// a reader can decide cheaply whether a whole frame is buffered.
    /// On success the cursor stands just past the frame.
    pub fn check(src: &Vec<u8>, pos: &mut usize) -> (r: Result<(), Error>)
        requires
            *old(pos) <= src.len(),
        ensures
            *old(pos) <= *final(pos) <= src.len(),
            match spec_check(src@.skip(*old(pos) as int)) {
                CheckRes::Done(n) => (r matches Ok(u) && *final(pos) == *old(pos) + n),
                CheckRes::Incomplete => (r matches Err(Error::Incomplete)),
                CheckRes::Bad => (r matches Err(Error::Other(m))),
            },
        decreases src.len() - *old(pos),
    {
        let ghost p0 = *pos as int;
        let ghost s = src@.skip(p0);
        let b = match get_u8(src, pos) {
            Ok(b) => b,
            Err(e) => {
                return Err(e);
            },
        };
        let ghost t = s.skip(1);
        proof {
            assert(t =~= src@.skip(p0 + 1));
            lemma_find_crlf(t);
        }
        if b == 43 || b == 45 {  // '+' simple, '-' error
            match get_line(src, pos) {
                Ok(line) => Ok(()),
                Err(e) => Err(e),
            }
        } else if b == 58 {  // ':' integer
            match get_decimal(src, pos) {
                Ok(v) => Ok(()),
                Err(e) => Err(e),
            }
        } else if b == 36 || b == 42 {  // '$' bulk, '*' array
            let c = match peek_u8(src, pos) {
                Ok(c) => c,
                Err(e) => {
                    return Err(e);
                },
            };
            if c == 45 {  // only the null marker line "-1"
                let line = match get_line(src, pos) {
                    Ok(line) => line,
                    Err(e) => {
                        return Err(e);
                    },
                };
                if line.len() == 2 && line[0] == 45 && line[1] == 49 {
                    proof {
                        assert(line@ =~= seq![45u8, 49u8]);
                    }
                    Ok(())
                } else {
                    proof {
                        assert(line@ != seq![45u8, 49u8]);
                    }
                    Err(Error::Other(("protocol error; invalid frame format").to_owned()))
                }
            } else if b == 36 {  // '$' with a length line
                let v = match get_decimal(src, pos) {
                    Ok(v) => v,
                    Err(e) => {
                        return Err(e);
                    },
                };
                if v > usize::MAX as u64 {
                    return Err(Error::Other(("protocol error; invalid frame format").to_owned()));
                }
                let n = v as usize;
                let remaining = src.len() - *pos;
                if remaining < n || remaining - n < 2 {
                    return Err(Error::Incomplete);
                }
                match skip(src, pos, n + 2) {
                    Ok(u) => Ok(()),
                    Err(e) => Err(e),
                }
            } else {  // '*' with a count line
                let v = match get_decimal(src, pos) {
                    Ok(v) => v,
                    Err(e) => {
                        return Err(e);
                    },
                };
                if v > usize::MAX as u64 {
                    return Err(Error::Other(("protocol error; invalid frame format").to_owned()));
                }
                let count = v as usize;
                let ghost p1 = *pos as int;
                let ghost s1 = src@.skip(p1);
                proof {
                    assert(s1 =~= t.skip(p1 - (p0 + 1)));
                    let fi = find_crlf(t)->Some_0;
                    assert(find_crlf(t) == Some(fi));
                    assert(p1 == p0 + 1 + fi + 2);
                    assert(0 <= fi && fi + 2 <= t.len());
                    let line = t.take(fi);
                    assert(is_dec_u64(line) && dec_val(line) == v as nat);
                    assert(dec_val(line) <= usize::MAX as nat);
                    assert(count as nat == dec_val(line));
                    assert(s1 == t.skip(fi + 2));
                    assert(spec_check(s) == check_shift(
                        p1 - p0,
                        spec_check_elems(s1, count as nat),
                    ));
                }
                let mut idx: usize = 0;
                while idx < count
                    invariant
                        idx <= count,
                        p0 == *old(pos),
                        p0 + 3 <= p1 <= *pos <= src.len(),
                        s == src@.skip(p0),
                        s1 == src@.skip(p1),
                        spec_check(s) == check_shift(
                            p1 - p0,
                            spec_check_elems(s1, count as nat),
                        ),
                        spec_check_elems(s1, count as nat) == check_shift(
                            *pos - p1,
                            spec_check_elems(src@.skip(*pos as int), (count - idx) as nat),
                        ),
                    decreases count - idx,
                {
                    let ghost cur = src@.skip(*pos as int);
                    let ghost pc = *pos as int;
                    proof {
                        lemma_spec_check_bounds(cur);
                    }
                    match Frame::check(src, pos) {
                        Ok(u) => {
                            proof {
                                let m = *pos - pc;
                                assert(cur.skip(m) =~= src@.skip(pc + m));
                            }
                            idx = idx + 1;
                        },
                        Err(e) => {
                            proof {
                                let k = (count - idx) as nat;
                                assert(spec_check_elems(s1, count as nat) == check_shift(
                                    pc - p1,
                                    spec_check_elems(cur, k),
                                ));
                                assert(!(spec_check(cur) is Done));
                                assert(spec_check_elems(cur, k) == spec_check(cur));
                            }
                            return Err(e);
                        },
                    }
                }
                Ok(())
            }
        } else {
            Err(Error::Other(("protocol error; illegal frame type byte").to_owned()))
        }
    }

    /// Serializes the frame back to its wire bytes.
    pub fn encode(&self) -> (out: Vec<u8>)
        ensures
            out@ == spec_encode(self@),
        decreases self,
    {
        let mut out: Vec<u8> = Vec::new();
        match self {
            Frame::Simple(text) => {
                out.push(43);
                let bytes = text.as_str().as_bytes_vec();
                push_all(&mut out, &bytes);
                push_crlf(&mut out);
                proof {
                    assert(out@ =~= seq![43u8] + encode_utf8(text@) + seq![13u8, 10u8]);
                }
            },
            Frame::Error(text) => {
                out.push(45);
                let bytes = text.as_str().as_bytes_vec();
                push_all(&mut out, &bytes);
                push_crlf(&mut out);
                proof {
                    assert(out@ =~= seq![45u8] + encode_utf8(text@) + seq![13u8, 10u8]);
                }
            },
            Frame::Integer(u) => {
                out.push(58);
                push_decimal(&mut out, *u);
                push_crlf(&mut out);
                proof {
                    assert(out@ =~= seq![58u8] + dec_rep(*u as nat) + seq![13u8, 10u8]);
                }
            },
            Frame::Bulk(data) => {
                out.push(36);
                push_decimal(&mut out, data.len() as u64);
                push_crlf(&mut out);
                push_all(&mut out, data);
                push_crlf(&mut out);
                proof {
                    assert(out@ =~= seq![36u8] + dec_rep(data@.len()) + seq![13u8, 10u8] + data@
                        + seq![13u8, 10u8]);
                }
            },
            Frame::Null => {
                out.push(36);
                out.push(45);
                out.push(49);
                out.push(13);
                out.push(10);
                proof {
                    assert(out@ =~= seq![36u8, 45u8, 49u8, 13u8, 10u8]);
                }
            },
            Frame::Array(elems) => {
                out.push(42);
                push_decimal(&mut out, elems.len() as u64);
                push_crlf(&mut out);
                let ghost vs = frames_view_from(elems, 0);
                let ghost header = out@;
                proof {
                    lemma_frames_view_from(elems, 0);
                    assert(header =~= seq![42u8] + dec_rep(elems@.len()) + seq![13u8, 10u8]);
                }
                let mut i: usize = 0;
                #[verifier::loop_isolation(false)]
                while i < elems.len()
                    invariant
                        i <= elems.len(),
                        vs == frames_view_from(elems, 0),
                        vs.len() == elems.len(),
                        forall|j: int| 0 <= j < elems.len() ==> vs[j] == #[trigger] elems[j]@,
                        out@ + spec_encode_elems_from(vs, i as int) == header
                            + spec_encode_elems_from(vs, 0),
                    decreases elems.len() - i,
                {
                    let ghost ob = out@;
                    let child = elems[i].encode();
                    push_all(&mut out, &child);
                    proof {
                        assert(child@ == spec_encode(vs[i as int]));
                        assert(spec_encode_elems_from(vs, i as int) == spec_encode(vs[i as int])
                            + spec_encode_elems_from(vs, i + 1));
                        assert((ob + child@) + spec_encode_elems_from(vs, i + 1) =~= ob + (child@
                            + spec_encode_elems_from(vs, i + 1)));
                    }
                    i = i + 1;
                }
                proof {
                    assert(spec_encode_elems_from(vs, elems.len() as int) =~= Seq::<u8>::empty());
                    assert(out@ + Seq::<u8>::empty() =~= out@);
                }
            },
        }
        out
    }

    /// Decodes one complete frame at the cursor. The same grammar as
    /// `check`, but text lines are additionally decoded as UTF-8, which can
    /// turn a checked frame into a protocol violation — never into an
    /// incomplete read.
    pub fn parse(src: &Vec<u8>, pos: &mut usize) -> (r: Result<Frame, Error>)
        requires
            *old(pos) <= src.len(),
        ensures
            *old(pos) <= *final(pos) <= src.len(),
            match spec_parse(src@.skip(*old(pos) as int)) {
                ParseRes::Done(fv, n) => (r matches Ok(f) && f@ == fv && *final(pos) == *old(pos)
                    + n),
                ParseRes::Incomplete => (r matches Err(Error::Incomplete)),
                ParseRes::Bad => (r matches Err(Error::Other(m))),
            },
        decreases src.len() - *old(pos),
    {
        let ghost p0 = *pos as int;
        let ghost s = src@.skip(p0);
        let b = match get_u8(src, pos) {
            Ok(b) => b,
            Err(e) => {
                return Err(e);
            },
        };
        let ghost t = s.skip(1);
        proof {
            assert(t =~= src@.skip(p0 + 1));
            lemma_find_crlf(t);
        }
        if b == 43 || b == 45 {  // '+' simple, '-' error
            let line = match get_line(src, pos) {
                Ok(line) => line,
                Err(e) => {
                    return Err(e);
                },
            };
            match string_from_utf8(line) {
                Some(text) => {
                    if b == 43 {
                        Ok(Frame::Simple(text))
                    } else {
                        Ok(Frame::Error(text))
                    }
                },
                None => Err(Error::Other(("protocol error; invalid frame format").to_owned())),
            }
        } else if b == 58 {  // ':' integer
            match get_decimal(src, pos) {
                Ok(v) => Ok(Frame::Integer(v)),
                Err(e) => Err(e),
            }
        } else if b == 36 || b == 42 {  // '$' bulk, '*' array
            let c = match peek_u8(src, pos) {
                Ok(c) => c,
                Err(e) => {
                    return Err(e);
                },
            };
            if c == 45 {  // only the null marker line "-1"
                let line = match get_line(src, pos) {
                    Ok(line) => line,
                    Err(e) => {
                        return Err(e);
                    },
                };
                if line.len() == 2 && line[0] == 45 && line[1] == 49 {
                    proof {
                        assert(line@ =~= seq![45u8, 49u8]);
                    }
                    Ok(Frame::Null)
                } else {
                    proof {
                        assert(line@ != seq![45u8, 49u8]);
                    }
                    Err(Error::Other(("protocol error; invalid frame format").to_owned()))
                }
            } else if b == 36 {  // '$' with a length line
                let v = match get_decimal(src, pos) {
                    Ok(v) => v,
                    Err(e) => {
                        return Err(e);
                    },
                };
                if v > usize::MAX as u64 {
                    return Err(Error::Other(("protocol error; invalid frame format").to_owned()));
                }
                let n = v as usize;
                let remaining = src.len() - *pos;
                if remaining < n || remaining - n < 2 {
                    return Err(Error::Incomplete);
                }
                let ghost pd = *pos as int;
                let mut data: Vec<u8> = Vec::new();
                let mut k: usize = 0;
                while k < n
                    invariant
                        k <= n,
                        pd == *pos,
                        pd + n + 2 <= src.len(),
                        data@ == src@.subrange(pd, pd + k),
                    decreases n - k,
                {
                    data.push(src[*pos + k]);
                    k = k + 1;
                }
                match skip(src, pos, n + 2) {
                    Ok(u) => {
                        proof {
                            assert(data@ =~= t.skip(pd - (p0 + 1)).take(n as int));
                        }
                        Ok(Frame::Bulk(data))
                    },
                    Err(e) => Err(e),
                }
            } else {  // '*' with a count line
                let v = match get_decimal(src, pos) {
                    Ok(v) => v,
                    Err(e) => {
                        return Err(e);
                    },
                };
                if v > usize::MAX as u64 {
                    return Err(Error::Other(("protocol error; invalid frame format").to_owned()));
                }
                let count = v as usize;
                let ghost p1 = *pos as int;
                let ghost s1 = src@.skip(p1);
                proof {
                    assert(s1 =~= t.skip(p1 - (p0 + 1)));
                    let fi = find_crlf(t)->Some_0;
                    assert(find_crlf(t) == Some(fi));
                    assert(p1 == p0 + 1 + fi + 2);
                    assert(0 <= fi && fi + 2 <= t.len());
                    let line = t.take(fi);
                    assert(is_dec_u64(line) && dec_val(line) == v as nat);
                    assert(count as nat == dec_val(line));
                    assert(s1 == t.skip(fi + 2));
                }
                let mut arr: Vec<Frame> = Vec::new();
                let ghost mut vsofar: Seq<FrameV> = seq![];
                let mut idx: usize = 0;
                while idx < count
                    invariant
                        idx <= count,
                        p0 == *old(pos),
                        p0 + 3 <= p1 <= *pos <= src.len(),
                        s == src@.skip(p0),
                        s1 == src@.skip(p1),
                        arr.len() == idx,
                        vsofar.len() == idx,
                        forall|j: int| 0 <= j < idx ==> vsofar[j] == #[trigger] arr[j]@,
                        match spec_parse_elems(s1, count as nat) {
                            ElemsRes::Done(fs, m) => spec_parse(s) == ParseRes::Done(
                                FrameV::Array(fs),
                                (p1 - p0) + m,
                            ),
                            ElemsRes::Incomplete => spec_parse(s) == ParseRes::Incomplete,
                            ElemsRes::Bad => spec_parse(s) == ParseRes::Bad,
                        },
                        spec_parse_elems(s1, count as nat) == elems_shift(
                            vsofar,
                            *pos - p1,
                            spec_parse_elems(src@.skip(*pos as int), (count - idx) as nat),
                        ),
                    decreases count - idx,
                {
                    let ghost cur = src@.skip(*pos as int);
                    let ghost pc = *pos as int;
                    proof {
                        lemma_spec_parse_bounds(cur);
                    }
                    match Frame::parse(src, pos) {
                        Ok(f) => {
                            proof {
                                let m = *pos - pc;
                                let k = (count - idx) as nat;
                                assert(cur.skip(m) =~= src@.skip(pc + m));
                                assert(spec_parse_elems(cur, k) == elems_shift(
                                    seq![f@],
                                    m,
                                    spec_parse_elems(src@.skip(pc + m), (k - 1) as nat),
                                ));
                                let vprev = vsofar;
                                vsofar = vsofar + seq![f@];
                                match spec_parse_elems(src@.skip(pc + m), (k - 1) as nat) {
                                    ElemsRes::Done(fs2, m2) => {
                                        assert((vprev + seq![f@]) + fs2 =~= vprev + (seq![f@]
                                            + fs2));
                                    },
                                    ElemsRes::Incomplete => {},
                                    ElemsRes::Bad => {},
                                }
                            }
                            arr.push(f);
                            idx = idx + 1;
                        },
                        Err(e) => {
                            proof {
                                let k = (count - idx) as nat;
                                assert(!(spec_parse(cur) is Done));
                                assert(match spec_parse_elems(cur, k) {
                                    ElemsRes::Incomplete => spec_parse(cur) is Incomplete,
                                    ElemsRes::Bad => spec_parse(cur) is Bad,
                                    ElemsRes::Done(fs, m) => false,
                                });
                            }
                            return Err(e);
                        },
                    }
                }
                proof {
                    lemma_frames_view_from(&arr, 0);
                    assert forall|j: int| 0 <= j < vsofar.len() implies frames_view_from(&arr, 0)[j]
                        == vsofar[j] by {
                        assert(frames_view_from(&arr, 0)[j] == arr[j]@);
                    }
                    assert(frames_view_from(&arr, 0) =~= vsofar);
                }
                Ok(Frame::Array(arr))
            }
        } else {
            Err(Error::Other(("protocol error; illegal frame type byte").to_owned()))
        }
    }
}

} // verus!
