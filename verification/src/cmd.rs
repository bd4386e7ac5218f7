//! The closed set of commands a request frame can carry — `GET`, `SET`,
//! and the unknown-command fallback — with the parser that builds one from
//! an array frame and the dispatcher that runs it against the store.

use crate::db::Db;
use crate::frame::{Frame, FrameV};
use crate::parse::{bytes_of, int_of, str_of, Parse, ParseError};
use vstd::prelude::*;

verus! {

/// Name for what `str::to_lowercase` returns: it depends on the characters
/// alone.
pub uninterp spec fn lower_of(s: Seq<char>) -> Seq<char>;

/// Name for what `str::to_uppercase` returns: it depends on the characters
/// alone.
pub uninterp spec fn upper_of(s: Seq<char>) -> Seq<char>;

/// Relies on `str::to_lowercase`: the lowercase form of the text.
#[verifier::external_body]
fn to_lowercase(s: &str) -> (r: String)
    ensures
        r@ == lower_of(s@),
{
    s.to_lowercase()
}

/// Relies on `str::to_uppercase`: the uppercase form of the text.
#[verifier::external_body]
fn to_uppercase(s: &str) -> (r: String)
    ensures
        r@ == upper_of(s@),
{
    s.to_uppercase()
}

/// Reads a key from the store.
#[derive(Debug)]
pub struct Get {
    key: String,
}

impl View for Get {
    type V = Seq<char>;

    closed spec fn view(&self) -> Seq<char> {
        self.key@
    }
}

impl Get {
    /// A `GET` for `key`.
    pub fn new(key: String) -> (g: Get)
        ensures
            g@ == key@,
    {
        Get { key }
    }

    /// The key this command reads.
    pub fn key(&self) -> (r: &str)
        ensures
            r@ == self@,
    {
        self.key.as_str()
    }

    /// Pulls the one argument of `GET`: the key.
    pub fn parse_frames(parse: &mut Parse) -> (r: Result<Get, ParseError>)
        ensures
            old(parse)@.len() == 0 ==> (r matches Err(ParseError::EndOfStream)),
            old(parse)@.len() > 0 ==> final(parse)@ == old(parse)@.drop_first() && (match str_of(
                old(parse)@[0],
            ) {
                Some(k) => (r matches Ok(g) && g@ == k),
                None => (r matches Err(ParseError::Other(m))),
            }),
    {
        let key = match parse.next_string() {
            Ok(key) => key,
            Err(e) => {
                return Err(e);
            },
        };
        Ok(Get::new(key))
    }
}

/// Replies to a command nobody recognizes; it never touches the store.
#[derive(Debug)]
pub struct Unknown {
    command_name: String,
}

impl View for Unknown {
    type V = Seq<char>;

    closed spec fn view(&self) -> Seq<char> {
        self.command_name@
    }
}

impl Unknown {
    /// Remembers the rejected command name for the reply.
    pub fn new(name: String) -> (u: Unknown)
        ensures
            u@ == name@,
    {
        Unknown { command_name: name }
    }

    /// The rejected command name.
    pub fn get_name(&self) -> (r: &str)
        ensures
            r@ == self@,
    {
        self.command_name.as_str()
    }
}

/// The fields of a `SET`: key, value, and an optional time to live in
/// milliseconds.
#[derive(Debug)]
pub struct SetCmd {
    key: String,
    value: Vec<u8>,
    expire: Option<u64>,
}

impl View for SetCmd {
    type V = (Seq<char>, Seq<u8>, Option<u64>);

    closed spec fn view(&self) -> (Seq<char>, Seq<u8>, Option<u64>) {
        (self.key@, self.value@, self.expire)
    }
}

/// Seconds turned to milliseconds, capped at the largest representable
/// instant.
pub open spec fn secs_to_ms(n: u64) -> u64 {
    if n <= u64::MAX / 1000 {
        (n * 1000) as u64
    } else {
        u64::MAX
    }
}

/// What parsing `SET`'s arguments yields: the fields and how many elements
/// they took, or the way they fail — arguments missing, or an argument of
/// the wrong shape (a bad number, an unsupported option).
pub enum SetArgs {
    Parsed((Seq<char>, Seq<u8>, Option<u64>), int),
    MissingArg,
    BadArg,
}

/// The arguments of `SET`, read positionally from `elems`: key, value,
/// then optionally `EX` with seconds or `PX` with milliseconds, matched
/// case-insensitively.
pub open spec fn spec_set_args(elems: Seq<FrameV>) -> SetArgs {
    if elems.len() == 0 {
        SetArgs::MissingArg
    } else {
        match str_of(elems[0]) {
            None => SetArgs::BadArg,
            Some(key) => if elems.len() == 1 {
                SetArgs::MissingArg
            } else {
                match bytes_of(elems[1]) {
                    None => SetArgs::BadArg,
                    Some(value) => if elems.len() == 2 {
                        SetArgs::Parsed((key, value, None), 2)
                    } else {
                        match str_of(elems[2]) {
                            None => SetArgs::BadArg,
                            Some(opt) => if upper_of(opt) == "EX"@ {
                                if elems.len() == 3 {
                                    SetArgs::MissingArg
                                } else {
                                    match int_of(elems[3]) {
                                        None => SetArgs::BadArg,
                                        Some(n) => SetArgs::Parsed(
                                            (key, value, Some(secs_to_ms(n))),
                                            4,
                                        ),
                                    }
                                }
                            } else if upper_of(opt) == "PX"@ {
                                if elems.len() == 3 {
                                    SetArgs::MissingArg
                                } else {
                                    match int_of(elems[3]) {
                                        None => SetArgs::BadArg,
                                        Some(n) => SetArgs::Parsed((key, value, Some(n)), 4),
                                    }
                                }
                            } else {
                                SetArgs::BadArg
                            },
                        }
                    },
                }
            },
        }
    }
}

impl SetCmd {
    /// A `SET` of `value` under `key`, expiring `expire_ms` milliseconds
    /// after it is applied, or kept indefinitely.
    pub fn new(key: String, value: Vec<u8>, expire_ms: Option<u64>) -> (s: SetCmd)
        ensures
            s@ == (key@, value@, expire_ms),
    {
        SetCmd { key, value, expire: expire_ms }
    }

    /// The key to write.
    pub fn key(&self) -> (r: &str)
        ensures
            r@ == self@.0,
    {
        self.key.as_str()
    }

    /// The value to store.
    pub fn value(&self) -> (r: &Vec<u8>)
        ensures
            r@ == self@.1,
    {
        &self.value
    }

    /// The time to live in milliseconds, if one was asked for.
    pub fn expire(&self) -> (r: Option<u64>)
        ensures
            r == self@.2,
    {
        self.expire
    }

    /// Pulls `SET`'s arguments: key, value, and the optional `EX`/`PX`
    /// expiration clause. A missing clause is a plain `SET`; a third token
    /// that is neither `EX` nor `PX` is an unsupported option.
    pub fn parse_frames(parse: &mut Parse) -> (r: Result<SetCmd, ParseError>)
        ensures
            match spec_set_args(old(parse)@) {
                SetArgs::Parsed(fields, used) => (r matches Ok(st) && st@ == fields
                    && final(parse)@ == old(parse)@.skip(used)),
                SetArgs::MissingArg => (r matches Err(ParseError::EndOfStream)),
                SetArgs::BadArg => (r matches Err(ParseError::Other(m))),
            },
    {
        let key = match parse.next_string() {
            Ok(key) => key,
            Err(e) => {
                return Err(e);
            },
        };
        let value = match parse.next_bytes() {
            Ok(value) => value,
            Err(e) => {
                return Err(e);
            },
        };
        proof {
            assert(old(parse)@.drop_first().drop_first() =~= old(parse)@.skip(2));
        }
        match parse.next_string() {
            Ok(opt) => {
                proof {
                    assert(old(parse)@.skip(2).drop_first() =~= old(parse)@.skip(3));
                }
                let upper = to_uppercase(opt.as_str());
                let ex = String::from_str("EX");
                let px = String::from_str("PX");
                if upper == ex {
                    proof {
                        reveal_strlit("EX");
                    }
                    let number = match parse.next_int() {
                        Ok(number) => number,
                        Err(e) => {
                            return Err(e);
                        },
                    };
                    proof {
                        assert(old(parse)@.skip(3).drop_first() =~= old(parse)@.skip(4));
                    }
                    let ms: u64 = if number <= u64::MAX / 1000 {
                        number * 1000
                    } else {
                        u64::MAX
                    };
                    Ok(SetCmd::new(key, value, Some(ms)))
                } else if upper == px {
                    proof {
                        reveal_strlit("EX");
                        reveal_strlit("PX");
                    }
                    let number = match parse.next_int() {
                        Ok(number) => number,
                        Err(e) => {
                            return Err(e);
                        },
                    };
                    proof {
                        assert(old(parse)@.skip(3).drop_first() =~= old(parse)@.skip(4));
                    }
                    Ok(SetCmd::new(key, value, Some(number)))
                } else {
                    Err(
                        ParseError::Other(
                            ("currently `SET` only supports the expiration option").to_owned(),
                        ),
                    )
                }
            },
            Err(ParseError::EndOfStream) => Ok(SetCmd::new(key, value, None)),
            Err(ParseError::Other(m)) => Err(ParseError::Other(m)),
        }
    }
}

/// One parsed request.
#[derive(Debug)]
pub enum Command {
    Get(Get),
    SetCmd(SetCmd),
    UnKnown(Unknown),
}

/// The value of a parsed request: which operation, with its fields.
pub enum CommandV {
    Get(Seq<char>),
    SetCmd((Seq<char>, Seq<u8>, Option<u64>)),
    UnKnown(Seq<char>),
}

impl View for Command {
    type V = CommandV;

    open spec fn view(&self) -> CommandV {
        match self {
            Command::Get(g) => CommandV::Get(g@),
            Command::SetCmd(s) => CommandV::SetCmd(s@),
            Command::UnKnown(u) => CommandV::UnKnown(u@),
        }
    }
}

/// What building a command from a frame yields: the command, or the way it
/// fails — a request that is not an array, arguments missing, or an
/// argument of the wrong shape (trailing arguments included).
pub enum CmdRes {
    Cmd(CommandV),
    FailEnd,
    FailOther,
}

/// The command a request frame denotes. The first element names the
/// command, matched case-insensitively; an unrecognized name is a normal
/// outcome, not a failure. After the command's own arguments nothing may
/// remain.
pub open spec fn spec_from_frame(fv: FrameV) -> CmdRes {
    match fv {
        FrameV::Array(elems) => {
            if elems.len() == 0 {
                CmdRes::FailEnd
            } else {
                match str_of(elems[0]) {
                    None => CmdRes::FailOther,
                    Some(name) => if lower_of(name) == "get"@ {
                        if elems.len() == 1 {
                            CmdRes::FailEnd
                        } else {
                            match str_of(elems[1]) {
                                None => CmdRes::FailOther,
                                Some(k) => if elems.len() == 2 {
                                    CmdRes::Cmd(CommandV::Get(k))
                                } else {
                                    CmdRes::FailOther
                                },
                            }
                        }
                    } else if lower_of(name) == "set"@ {
                        match spec_set_args(elems.skip(1)) {
                            SetArgs::Parsed(fields, used) => if elems.len() == 1 + used {
                                CmdRes::Cmd(CommandV::SetCmd(fields))
                            } else {
                                CmdRes::FailOther
                            },
                            SetArgs::MissingArg => CmdRes::FailEnd,
                            SetArgs::BadArg => CmdRes::FailOther,
                        }
                    } else {
                        if elems.len() == 1 {
                            CmdRes::Cmd(CommandV::UnKnown(name))
                        } else {
                            CmdRes::FailOther
                        }
                    },
                }
            }
        },
        _ => CmdRes::FailOther,
    }
}

impl Command {
    /// Builds the command a request frame denotes, per `spec_from_frame`.
    pub fn from_frame(frame: Frame) -> (r: Result<Command, ParseError>)
        ensures
            match spec_from_frame(frame@) {
                CmdRes::Cmd(cv) => (r matches Ok(c) && c@ == cv),
                CmdRes::FailEnd => (r matches Err(ParseError::EndOfStream)),
                CmdRes::FailOther => (r matches Err(ParseError::Other(m))),
            },
    {
        let ghost fv = frame@;
        let mut parse = match Parse::new(frame) {
            Ok(parse) => parse,
            Err(e) => {
                return Err(e);
            },
        };
        let ghost elems = parse@;
        let command_name = match parse.next_string() {
            Ok(command_name) => command_name,
            Err(e) => {
                return Err(e);
            },
        };
        proof {
            assert(elems.drop_first() =~= elems.skip(1));
        }
        let lowered = to_lowercase(command_name.as_str());
        let get_name = String::from_str("get");
        let set_name = String::from_str("set");
        let command = if lowered == get_name {
            proof {
                reveal_strlit("get");
            }
            match Get::parse_frames(&mut parse) {
                Ok(g) => Command::Get(g),
                Err(e) => {
                    return Err(e);
                },
            }
        } else if lowered == set_name {
            proof {
                reveal_strlit("get");
                reveal_strlit("set");
            }
            match SetCmd::parse_frames(&mut parse) {
                Ok(st) => Command::SetCmd(st),
                Err(e) => {
                    return Err(e);
                },
            }
        } else {
            proof {
                reveal_strlit("get");
                reveal_strlit("set");
            }
            Command::UnKnown(Unknown::new(command_name))
        };
        match parse.finish() {
            Ok(u) => Ok(command),
            Err(e) => Err(e),
        }
    }

    /// The absolute expiry instant a relative time to live denotes at
    /// instant `now`, capped at the largest representable instant.
    pub open spec fn deadline_of(expire_ms: Option<u64>, now: u64) -> Option<u64> {
        match expire_ms {
            Some(d) => if now + d <= u64::MAX {
                Some((now + d) as u64)
            } else {
                Some(u64::MAX)
            },
            None => None,
        }
    }

    /// Runs the command against the store at instant `now` and returns the
    /// one reply frame it owes: `GET` reads and never writes, `SET`
    /// overwrites its key, an unknown command reports its name and leaves
    /// the store untouched.
    pub fn apply(self, db: &mut Db, now: u64) -> (reply: Frame)
        requires
            old(db).wf(),
        ensures
            final(db).wf(),
            match self@ {
                CommandV::Get(k) => *final(db) == *old(db) && (match old(db).spec_live(k, now) {
                    Some(v) => reply@ == FrameV::Bulk(v),
                    None => reply@ == FrameV::Null,
                }),
                CommandV::SetCmd(fields) => reply@ == FrameV::Simple("OK"@) && (forall|k2: Seq<char>|
                    #![trigger final(db).spec_lookup(k2)]
                    final(db).spec_lookup(k2) == (if k2 == fields.0 {
                        Some((fields.1, Command::deadline_of(fields.2, now)))
                    } else {
                        old(db).spec_lookup(k2)
                    })),
                CommandV::UnKnown(name) => *final(db) == *old(db) && reply@ == FrameV::Error(
                    "unknown command '"@ + name + "'"@,
                ),
            },
    {
        match self {
            Command::Get(cmd) => {
                match db.get(cmd.key(), now) {
                    Some(v) => Frame::Bulk(v),
                    None => Frame::Null,
                }
            },
            Command::SetCmd(cmd) => {
                let deadline: Option<u64> = match cmd.expire() {
                    Some(d) => {
                        if d <= u64::MAX - now {
                            Some(now + d)
                        } else {
                            Some(u64::MAX)
                        }
                    },
                    None => None,
                };
                let SetCmd { key, value, expire } = cmd;
                db.set(key, value, deadline);
                Frame::Simple(String::from_str("OK"))
            },
            Command::UnKnown(cmd) => {
                let mut msg = String::from_str("unknown command '");
                msg.append(cmd.get_name());
                msg.append("'");
                Frame::Error(msg)
            },
        }
    }
}

} // verus!
