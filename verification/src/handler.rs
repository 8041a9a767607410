//! The dispatcher and the per-connection state machine.
//!
//! `parse_command` maps one decoded value to a reply and the store's next
//! state, exactly as the command table says. `RespBuffer` accumulates wire
//! bytes; `connection_step` performs one decode → dispatch → encode round,
//! telling the caller to reply, to read more, or to close.

use vstd::prelude::*;

verus! {

use crate::resp::{RESPString, RespView, Command, CommandError, command_frame, flat_text_view,
    encode_view, push_all};
use crate::parse::{DecodeError, decode_one, parse_resp_string, copy_range,
    lemma_decode_one_bounds};
use crate::store::Store;

pub open spec fn pong_view() -> RespView {
    RespView::SimpleString(seq![80u8, 79u8, 78u8, 71u8])
}

pub open spec fn ok_view() -> RespView {
    RespView::SimpleString(seq![79u8, 75u8])
}

pub open spec fn unknown_text() -> Seq<u8> {
    seq![85u8, 110u8, 107u8, 110u8, 111u8, 119u8, 110u8, 32u8, 99u8, 111u8, 109u8, 109u8, 97u8,
        110u8, 100u8]
}

pub open spec fn unknown_view() -> RespView {
    RespView::Error(unknown_text())
}

/// The command table's reply: `None` stands for a connection-level error
/// (an ECHO without its argument).
pub open spec fn reply_of(m: Map<Seq<u8>, Seq<u8>>, c: Command, args: Seq<RespView>) -> Option<
    RespView,
> {
    match c {
        Command::Ping => Some(pong_view()),
        Command::Echo => if args.len() >= 1 {
            Some(args[0])
        } else {
            None
        },
        Command::Get => if args.len() >= 1 {
            let k = flat_text_view(args[0]);
            if m.contains_key(k) {
                Some(RespView::BulkString(m[k]))
            } else {
                Some(RespView::NullBulkString)
            }
        } else {
            Some(RespView::NullBulkString)
        },
        Command::SetCmd => if args.len() >= 2 {
            Some(ok_view())
        } else {
            Some(RespView::NullBulkString)
        },
        Command::Unknown => Some(unknown_view()),
    }
}

/// The store's mapping after a command: SET with both arguments inserts,
/// everything else leaves the store alone.
pub open spec fn store_after(m: Map<Seq<u8>, Seq<u8>>, c: Command, args: Seq<RespView>) -> Map<
    Seq<u8>,
    Seq<u8>,
> {
    if c == Command::SetCmd && args.len() >= 2 {
        m.insert(flat_text_view(args[0]), flat_text_view(args[1]))
    } else {
        m
    }
}

/// The `PONG` reply.
fn pong_reply() -> (r: RESPString)
    ensures
        r.dview() == pong_view(),
{
    let mut s: Vec<u8> = Vec::new();
    s.push(80);
    s.push(79);
    s.push(78);
    s.push(71);
    assert(s@ =~= seq![80u8, 79u8, 78u8, 71u8]);
    RESPString::SimpleString(s)
}

/// The `Unknown command` error reply.
fn unknown_reply() -> (r: RESPString)
    ensures
        r.dview() == unknown_view(),
{
    let mut s: Vec<u8> = Vec::new();
    s.push(85);
    s.push(110);
    s.push(107);
    s.push(110);
    s.push(111);
    s.push(119);
    s.push(110);
    s.push(32);
    s.push(99);
    s.push(111);
    s.push(109);
    s.push(109);
    s.push(97);
    s.push(110);
    s.push(100);
    assert(s@ =~= unknown_text());
    RESPString::Error(s)
}

/// Dispatches one decoded value: classifies it as a command, runs the store
/// operation the table asks for, and returns the table's reply. A value
/// that is no command frame is `InvalidCommand`; an ECHO without its
/// argument is `MissingArgument`; neither faults.
pub fn parse_command(store: &mut Store, input: &RESPString) -> (r: Result<
    RESPString,
    CommandError,
>)
    ensures
        match command_frame(input.dview()) {
            Some(ca) => {
                &&& final(store).smap() == store_after(old(store).smap(), ca.0, ca.1)
                &&& match reply_of(old(store).smap(), ca.0, ca.1) {
                    Some(rv) => r matches Ok(v) && v.dview() == rv,
                    None => r == Err::<RESPString, CommandError>(CommandError::MissingArgument),
                }
            },
            None => r == Err::<RESPString, CommandError>(CommandError::InvalidCommand)
                && final(store).smap() == old(store).smap(),
        },
{
    match input.to_command() {
        Err(e) => Err(e),
        Ok((cmd, args)) => {
            match cmd {
                Command::Ping => Ok(pong_reply()),
                Command::Echo => {
                    if args.len() >= 1 {
                        Ok(args[0].duplicate())
                    } else {
                        Err(CommandError::MissingArgument)
                    }
                },
                Command::Get => {
                    if args.len() >= 1 {
                        let key = args[0].flat_text();
                        match store.get(&key) {
                            Some(v) => Ok(RESPString::BulkString(v)),
                            None => Ok(RESPString::null_reply()),
                        }
                    } else {
                        Ok(RESPString::null_reply())
                    }
                },
                Command::SetCmd => {
                    if args.len() >= 2 {
                        let key = args[0].flat_text();
                        let value = args[1].flat_text();
                        store.set(key, value);
                        Ok(RESPString::ok_reply())
                    } else {
                        Ok(RESPString::null_reply())
                    }
                },
                Command::Unknown => Ok(unknown_reply()),
            }
        },
    }
}

/// One connection's accumulation buffer: bytes read from the wire that are
/// not yet decoded.
pub struct RespBuffer {
    data: Vec<u8>,
}

impl RespBuffer {
    pub closed spec fn bytes(self) -> Seq<u8> {
        self.data@
    }

    /// A fresh, empty buffer.
    pub fn new() -> (r: RespBuffer)
        ensures
            r.bytes() == Seq::<u8>::empty(),
    {
        RespBuffer { data: Vec::new() }
    }

    /// Appends newly arrived bytes.
    pub fn feed(&mut self, chunk: &Vec<u8>)
        ensures
            final(self).bytes() == old(self).bytes() + chunk@,
    {
        push_all(&mut self.data, chunk);
    }

    /// Takes the first complete value off the buffer, consuming exactly the
    /// bytes it occupied and keeping the remainder; on any failure the
    /// buffer is untouched.
    pub fn next_value(&mut self) -> (r: Result<RESPString, DecodeError>)
        ensures
            match r {
                Ok(v) => decode_one(old(self).bytes()) matches Ok(p) && v.dview() == p.0
                    && final(self).bytes() == old(self).bytes().skip(p.1),
                Err(e) => decode_one(old(self).bytes()) == Err::<(RespView, int), DecodeError>(e)
                    && final(self).bytes() == old(self).bytes(),
            },
    {
        match parse_resp_string(&self.data) {
            Err(e) => Err(e),
            Ok((v, n)) => {
                proof {
                    lemma_decode_one_bounds(self.data@);
                }
                let rest = copy_range(&self.data, n, self.data.len());
                proof {
                    assert(rest@ =~= self.data@.skip(n as int));
                }
                self.data = rest;
                Ok(v)
            },
        }
    }
}

/// What the connection loop should do after one step.
pub enum StepResult {
    Reply(Vec<u8>),
    NeedMore,
    Close,
}

/// One round of the connection state machine: decode the next value from
/// the buffer, dispatch it against the store, and encode the reply. The
/// caller writes the reply bytes, reads more bytes, or closes, as told.
pub fn connection_step(store: &mut Store, buf: &mut RespBuffer) -> (r: StepResult)
    ensures
        match decode_one(old(buf).bytes()) {
            Err(e) => {
                &&& if e == DecodeError::NeedMoreData {
                    r is NeedMore
                } else {
                    r is Close
                }
                &&& final(buf).bytes() == old(buf).bytes()
                &&& final(store).smap() == old(store).smap()
            },
            Ok(p) => {
                &&& final(buf).bytes() == old(buf).bytes().skip(p.1)
                &&& match command_frame(p.0) {
                    None => r is Close && final(store).smap() == old(store).smap(),
                    Some(ca) => {
                        &&& final(store).smap() == store_after(old(store).smap(), ca.0, ca.1)
                        &&& match reply_of(old(store).smap(), ca.0, ca.1) {
                            Some(rv) => r matches StepResult::Reply(b) && b@ == encode_view(rv),
                            None => r is Close,
                        }
                    },
                }
            },
        },
{
    match buf.next_value() {
        Err(e) => {
            match e {
                DecodeError::NeedMoreData => StepResult::NeedMore,
                DecodeError::MalformedInput => StepResult::Close,
            }
        },
        Ok(value) => {
            match parse_command(store, &value) {
                Err(_) => StepResult::Close,
                Ok(reply) => StepResult::Reply(reply.encode()),
            }
        },
    }
}

} // verus!
