//! One connection: the bytes it has received and not yet read as requests,
//! and what it does next with them.
use vstd::prelude::*;
use vstd::slice::slice_to_vec;

use crate::command::{command_error_text, interpret, Command, Instruction};
use crate::resp::{
    decode_error_text, lemma_parse_extends, lemma_parse_wire, lemma_prefix_incomplete, parse,
    well_formed, wire, Data, Message,
};

verus! {

/// The bytes a connection has received and not yet read as requests.
pub struct Connection {
    buffer: Vec<u8>,
}

/// What a connection does next.
#[derive(Debug, PartialEq, Eq)]
pub enum Step {
    /// Run this command and send its reply.
    Execute(Command),
    /// Send this reply, then go on: the request names no command that can run.
    Reply(Data),
    /// Read more bytes: the ones at hand hold no whole request.
    Read,
    /// Send this reply, then close: the bytes at hand are not a message.
    Fail(Data),
}

pub enum StepView {
    Execute(Instruction),
    Reply(Message),
    Read,
    Fail(Message),
}

impl View for Step {
    type V = StepView;

    open spec fn view(&self) -> StepView {
        match self {
            Step::Execute(c) => StepView::Execute(c@),
            Step::Reply(d) => StepView::Reply(d@),
            Step::Read => StepView::Read,
            Step::Fail(d) => StepView::Fail(d@),
        }
    }
}

/// What a connection holding `buffer` does next, and the bytes it keeps.
pub open spec fn step(buffer: Seq<u8>) -> (StepView, Seq<u8>) {
    match parse(buffer) {
        Ok((m, n)) => (
            match interpret(m) {
                Ok(c) => StepView::Execute(c),
                Err(e) => StepView::Reply(Message::Error(command_error_text(e))),
            },
            buffer.subrange(n, buffer.len() as int),
        ),
        Err(e) => if e.spec_incomplete() {
            (StepView::Read, buffer)
        } else {
            (StepView::Fail(Message::Error(decode_error_text(e))), buffer)
        },
    }
}

/// The reply owed when the peer stops sending while `buffer` holds part of a
/// message: the fault that reading it meets.
pub open spec fn unfinished(buffer: Seq<u8>) -> Option<Message> {
    match parse(buffer) {
        Err(e) => if buffer.len() > 0 {
            Some(Message::Error(decode_error_text(e)))
        } else {
            None
        },
        Ok(_) => None,
    }
}

impl Connection {
    pub closed spec fn buffered(&self) -> Seq<u8> {
        self.buffer@
    }

    pub fn new() -> (r: Connection)
        ensures
            r.buffered() == Seq::<u8>::empty(),
    {
        Connection { buffer: Vec::new() }
    }

    /// Keeps `bytes`, which have just come in, after those already at hand.
    pub fn receive(&mut self, bytes: &[u8])
        ensures
            final(self).buffered() == old(self).buffered() + bytes@,
    {
        let ghost before = self.buffer@;
        let mut i: usize = 0;
        while i < bytes.len()
            invariant
                i <= bytes@.len(),
                self.buffer@ == before + bytes@.subrange(0, i as int),
            decreases bytes@.len() - i,
        {
            self.buffer.push(bytes[i]);
            i = i + 1;
            assert(self.buffer@ =~= before + bytes@.subrange(0, i as int));
        }
        assert(bytes@.subrange(0, i as int) =~= bytes@);
    }

    /// The reply to send when the peer has stopped sending: one that reports
    /// a partial message left at hand, if any.
    pub fn end_of_input(&self) -> (r: Option<Data>)
        ensures
            match r {
                Some(d) => unfinished(self.buffered()) == Some(d@),
                None => unfinished(self.buffered()) is None,
            },
    {
        if self.buffer.len() == 0 {
            return None;
        }
        match Data::decode(self.buffer.as_slice()) {
            Ok(_) => None,
            Err(e) => Some(Data::SimpleError(e.message())),
        }
    }
}

/// Reads the next request from the bytes at hand and decides what to do
/// with it; the bytes of a request read are let go.
pub fn handle(conn: &mut Connection) -> (r: Step)
    ensures
        (r@, final(conn).buffered()) == step(old(conn).buffered()),
{
    let decoded = Data::decode(conn.buffer.as_slice());
    match decoded {
        Ok((data, rest)) => {
            let kept = slice_to_vec(rest);
            conn.buffer = kept;
            match Command::try_from(data) {
                Ok(c) => Step::Execute(c),
                Err(e) => Step::Reply(Data::SimpleError(e.message())),
            }
        },
        Err(e) => {
            if e.is_incomplete() {
                Step::Read
            } else {
                Step::Fail(Data::SimpleError(e.message()))
            }
        },
    }
}

/// A well-formed request that names no command that can run gets an error
/// reply, and the connection goes on with the bytes after it: a valid request
/// there is the next one run.
pub proof fn lemma_refused_request(m: Message, next: Message, more: Seq<u8>)
    requires
        well_formed(m),
        interpret(m) is Err,
        well_formed(next),
        interpret(next) is Ok,
    ensures
        step(wire(m) + wire(next) + more) == (
            StepView::Reply(Message::Error(command_error_text(interpret(m)->Err_0))),
            wire(next) + more,
        ),
        step(wire(next) + more) == (StepView::Execute(interpret(next)->Ok_0), more),
{
    lemma_parse_wire(m, wire(next) + more);
    lemma_parse_wire(next, more);
    let b = wire(m) + wire(next) + more;
    assert(b =~= wire(m) + (wire(next) + more));
    assert(b.subrange(wire(m).len() as int, b.len() as int) =~= wire(next) + more);
    let c = wire(next) + more;
    assert(c.subrange(wire(next).len() as int, c.len() as int) =~= more);
}

/// A refused request followed by only part of the next one: the error reply
/// goes out, and the connection waits for the rest of the next request,
/// however the bytes were split across reads.
pub proof fn lemma_refused_then_partial(m: Message, next: Message, part: Seq<u8>)
    requires
        well_formed(m),
        interpret(m) is Err,
        well_formed(next),
        part.len() < wire(next).len(),
        part == wire(next).subrange(0, part.len() as int),
    ensures
        step(wire(m) + part) == (
            StepView::Reply(Message::Error(command_error_text(interpret(m)->Err_0))),
            part,
        ),
        step(part) == (StepView::Read, part),
{
    lemma_parse_wire(m, part);
    let b = wire(m) + part;
    assert(b.subrange(wire(m).len() as int, b.len() as int) =~= part);
    lemma_prefix_incomplete(next, part);
}

/// Whatever form a whole request takes on the wire, and whatever bytes come
/// after it: when it names no command that can run, it gets an error reply
/// and the connection goes on with exactly the bytes after it.
pub proof fn lemma_refused_frame(f: Seq<u8>, rest: Seq<u8>)
    requires
        parse(f) matches Ok((m, n)) && n == f.len() && interpret(m) is Err,
    ensures
        step(f + rest) == (
            StepView::Reply(Message::Error(command_error_text(interpret(parse(f)->Ok_0.0)->Err_0))),
            rest,
        ),
{
    lemma_parse_extends(f, rest);
    let b = f + rest;
    assert(b.subrange(f.len() as int, b.len() as int) =~= rest);
}

/// Whatever form a whole request takes on the wire, and whatever bytes come
/// after it: when it names a command, that command is the next one run and
/// the connection goes on with exactly the bytes after it.
pub proof fn lemma_accepted_frame(f: Seq<u8>, rest: Seq<u8>)
    requires
        parse(f) matches Ok((m, n)) && n == f.len() && interpret(m) is Ok,
    ensures
        step(f + rest) == (StepView::Execute(interpret(parse(f)->Ok_0.0)->Ok_0), rest),
{
    lemma_parse_extends(f, rest);
    let b = f + rest;
    assert(b.subrange(f.len() as int, b.len() as int) =~= rest);
}

} // verus!
