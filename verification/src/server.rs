//! The server's side of a connection: what is done for each message of the client and for each
//! answer of the engine.
use bytes::BytesMut;
use vstd::prelude::*;
use vstd::string::StringExecFns;

use crate::buffer::{buffer_len, buffered};
use crate::metrics::{counted_up, wrapped, ServerMetrics};
use crate::proto::{
    delimited, put_record_frame, server_frame, ClientMessage, Command, Record, ServerCodec,
    ServerMessage, ServerModel,
};

verus! {

/// What a connection waits for.
#[derive(Clone, Copy, Debug, PartialEq, Eq, Structural)]
pub enum Phase {
    /// A message of the client.
    Idle,
    /// The answer of the engine to an insert.
    Insert,
    /// The metrics.
    Metrics,
    /// Records of a query, of which so many were sent on.
    Records(u64),
    /// The end of a query.
    RangeEnd,
}

/// What comes to a connection.
#[derive(Debug)]
pub enum Event {
    /// A message of the client.
    Message(ClientMessage),
    /// The answer of the engine to an insert: done, or why not.
    Inserted(Result<(), String>),
    /// The metrics as JSON.
    Measured(String),
    /// Records of a query.
    Records(Vec<Record>),
    /// There are no more records.
    NoMoreRecords,
    /// How the query ended: at its end, at an error, or with the engine gone.
    RangeDone(Option<Result<(), String>>),
}

/// What a connection is to do.
#[derive(Debug)]
pub enum Action {
    /// Hand the command to the engine.
    Submit(Command),
    /// Wait for more records.
    Receive,
    /// Send what is in the buffer, and then go on waiting.
    Flush,
}

/// A connection.
#[derive(Debug)]
pub struct Session {
    phase: Phase,
}

/// How many bytes of records are gathered before they are sent.
pub const FLUSH_THRESHOLD: usize = 8192;

/// What is counted of the server, as plain numbers.
pub struct ServerTally {
    pub accepted: u64,
    pub active: i64,
    pub read: u64,
    pub written: u64,
}

impl View for ServerMetrics {
    type V = ServerTally;

    open spec fn view(&self) -> ServerTally {
        ServerTally {
            accepted: self.connections_accepted.count(),
            active: self.connections_active.level(),
            read: self.frames_read.count(),
            written: self.frames_written.count(),
        }
    }
}

/// The bytes of a message of the server.
pub open spec fn sent(m: ServerModel) -> Seq<u8> {
    delimited(server_frame(m))
}

/// The bytes of the records of a query, each as a message.
pub open spec fn records_sent(recs: Seq<Record>) -> Seq<u8>
    decreases recs.len(),
{
    if recs.len() == 0 {
        Seq::empty()
    } else {
        records_sent(recs.drop_last()) + sent(ServerModel::RangeRecord(recs.last()@))
    }
}

/// What the client is answered to an insert.
pub open spec fn insert_answer(res: Result<(), String>) -> ServerModel {
    match res {
        Ok(_) => ServerModel::InsertOk,
        Err(e) => ServerModel::Error(e@),
    }
}

/// What the client is answered at the end of a query.
pub open spec fn range_answer(res: Option<Result<(), String>>) -> ServerModel {
    match res {
        Some(Ok(_)) => ServerModel::RangeEnd,
        Some(Err(e)) => ServerModel::Error(e@),
        None => ServerModel::Error("engine closed"@),
    }
}

/// Whether a connection that waits as `phase` says can be told of the event.
pub open spec fn expected(phase: Phase, event: Event) -> bool {
    match (phase, event) {
        (Phase::Idle, Event::Message(_)) => true,
        (Phase::Insert, Event::Inserted(_)) => true,
        (Phase::Metrics, Event::Measured(_)) => true,
        (Phase::Records(_), Event::Records(_)) => true,
        (Phase::Records(_), Event::NoMoreRecords) => true,
        (Phase::RangeEnd, Event::RangeDone(_)) => true,
        _ => false,
    }
}

/// What a connection waits for after the event.
pub open spec fn next_phase(phase: Phase, event: Event) -> Phase {
    match (phase, event) {
        (_, Event::Message(ClientMessage::Range(_))) => Phase::Records(0),
        (_, Event::Message(ClientMessage::Metrics)) => Phase::Metrics,
        (_, Event::Message(ClientMessage::Ping)) => Phase::Idle,
        (_, Event::Message(_)) => Phase::Insert,
        (Phase::Records(n), Event::Records(recs)) => Phase::Records((n + recs@.len()) as u64),
        (_, Event::NoMoreRecords) => Phase::RangeEnd,
        _ => Phase::Idle,
    }
}

/// What is put into the buffer on the event.
pub open spec fn written(event: Event) -> Seq<u8> {
    match event {
        Event::Message(ClientMessage::Ping) => sent(ServerModel::Pong),
        Event::Message(_) => Seq::empty(),
        Event::Inserted(res) => sent(insert_answer(res)),
        Event::Measured(json) => sent(ServerModel::Metrics(json@)),
        Event::Records(recs) => records_sent(recs@),
        Event::NoMoreRecords => Seq::empty(),
        Event::RangeDone(res) => sent(range_answer(res)),
    }
}

/// What is counted on the event.
pub open spec fn tally_event(t: ServerTally, phase: Phase, event: Event) -> ServerTally {
    match (phase, event) {
        (_, Event::Message(ClientMessage::Ping)) => ServerTally {
            read: counted_up(t.read, 1),
            written: counted_up(t.written, 1),
            ..t
        },
        (_, Event::Message(_)) => ServerTally { read: counted_up(t.read, 1), ..t },
        (Phase::Records(n), Event::NoMoreRecords) => ServerTally {
            written: counted_up(t.written, n as nat),
            ..t
        },
        (_, Event::Inserted(_)) => ServerTally { written: counted_up(t.written, 1), ..t },
        (_, Event::Measured(_)) => ServerTally { written: counted_up(t.written, 1), ..t },
        (_, Event::RangeDone(_)) => ServerTally { written: counted_up(t.written, 1), ..t },
        _ => t,
    }
}

/// Whether the action is the one for the event, when the buffer holds `have` bytes.
pub open spec fn acts(event: Event, have: nat, action: Action) -> bool {
    match event {
        Event::Message(ClientMessage::Insert(i)) => action == Action::Submit(Command::Insert(i)),
        Event::Message(ClientMessage::BatchInsert(b)) => action == Action::Submit(
            Command::BatchInsert(b),
        ),
        Event::Message(ClientMessage::Range(r)) => action == Action::Submit(Command::Range(r)),
        Event::Message(ClientMessage::Metrics) => action == Action::Submit(Command::Metrics),
        Event::Records(_) => if have > FLUSH_THRESHOLD {
            action is Flush
        } else {
            action is Receive
        },
        _ => action is Flush,
    }
}

/// Counts a connection that was accepted.
pub fn accept(metrics: &mut ServerMetrics)
    ensures
        final(metrics)@ == (ServerTally {
            accepted: counted_up(old(metrics)@.accepted, 1),
            active: wrapped(old(metrics)@.active + 1) as i64,
            ..old(metrics)@
        }),
{
    metrics.connections_accepted.inc(1);
    metrics.connections_active.add(1);
}

/// Puts a record of a query into the buffer.
pub fn write_record_frame(buf: &mut BytesMut, rec: &Record)
    ensures
        buffered(*final(buf)) == buffered(*old(buf)) + sent(ServerModel::RangeRecord(rec@)),
{
    put_record_frame(buf, rec);
}

/// Puts records of a query into the buffer, each as a message.
fn write_records(buf: &mut BytesMut, recs: &Vec<Record>)
    ensures
        buffered(*final(buf)) == buffered(*old(buf)) + records_sent(recs@),
{
    let ghost all = recs@;
    let ghost start = buffered(*buf);
    let mut i: usize = 0;
    assert(all.take(0) =~= Seq::<Record>::empty());
    assert(start + records_sent(all.take(0)) =~= start);
    while i < recs.len()
        invariant
            i <= recs@.len(),
            all == recs@,
            buffered(*buf) == start + records_sent(all.take(i as int)),
        decreases recs@.len() - i,
    {
        write_record_frame(buf, &recs[i]);
        proof {
            assert(all.take(i + 1).drop_last() =~= all.take(i as int));
            assert(buffered(*buf) =~= start + records_sent(all.take(i + 1)));
        }
        i += 1;
    }
    assert(all.take(all.len() as int) =~= all);
}

impl Session {
    /// What the connection waits for.
    pub closed spec fn phase(&self) -> Phase {
        self.phase
    }

    /// A connection that waits for a message, which is counted.
    pub fn open(metrics: &mut ServerMetrics) -> (r: Self)
        ensures
            r.phase() == Phase::Idle,
            final(metrics)@ == (ServerTally {
                active: wrapped(old(metrics)@.active + 1) as i64,
                ..old(metrics)@
            }),
    {
        metrics.connections_active.add(1);
        Session { phase: Phase::Idle }
    }

    /// Counts that the client has closed the connection.
    pub fn close(self, metrics: &mut ServerMetrics)
        ensures
            final(metrics)@ == (ServerTally {
                active: wrapped(old(metrics)@.active - 1) as i64,
                ..old(metrics)@
            }),
    {
        metrics.connections_active.add(-1);
    }

    /// Counts a frame of the client that holds no message.
    pub fn bad_frame(&self, metrics: &mut ServerMetrics)
        ensures
            final(metrics)@ == (ServerTally {
                read: counted_up(old(metrics)@.read, 1),
                ..old(metrics)@
            }),
    {
        metrics.frames_read.inc(1);
    }

    /// What the connection waits for.
    pub fn waits_for(&self) -> (p: Phase)
        ensures
            p == self.phase(),
    {
        self.phase
    }

    /// Tells the connection of what it waits for. What the client is to be sent goes into
    /// `buf`. Returns what is to be done.
    pub fn step(&mut self, event: Event, buf: &mut BytesMut, metrics: &mut ServerMetrics) -> (r:
        Action)
        requires
            expected(old(self).phase(), event),
            (old(self).phase(), event) matches (Phase::Records(n), Event::Records(recs)) ==> n
                + recs@.len() <= u64::MAX,
        ensures
            final(self).phase() == next_phase(old(self).phase(), event),
            buffered(*final(buf)) == buffered(*old(buf)) + written(event),
            final(metrics)@ == tally_event(old(metrics)@, old(self).phase(), event),
            acts(event, buffered(*final(buf)).len(), r),
    {
        assert(buffered(*buf) + Seq::<u8>::empty() =~= buffered(*buf));
        let mut codec = ServerCodec;
        match event {
            Event::Message(msg) => {
                metrics.frames_read.inc(1);
                match msg {
                    ClientMessage::Insert(i) => {
                        self.phase = Phase::Insert;
                        Action::Submit(Command::Insert(i))
                    },
                    ClientMessage::BatchInsert(b) => {
                        self.phase = Phase::Insert;
                        Action::Submit(Command::BatchInsert(b))
                    },
                    ClientMessage::Range(r) => {
                        self.phase = Phase::Records(0);
                        Action::Submit(Command::Range(r))
                    },
                    ClientMessage::Metrics => {
                        self.phase = Phase::Metrics;
                        Action::Submit(Command::Metrics)
                    },
                    ClientMessage::Ping => {
                        metrics.frames_written.inc(1);
                        codec.encode(ServerMessage::Pong, buf);
                        self.phase = Phase::Idle;
                        Action::Flush
                    },
                }
            },
            Event::Inserted(res) => {
                let reply = match res {
                    Ok(_) => ServerMessage::InsertOk,
                    Err(e) => ServerMessage::Error(e),
                };
                metrics.frames_written.inc(1);
                codec.encode(reply, buf);
                self.phase = Phase::Idle;
                Action::Flush
            },
            Event::Measured(json) => {
                metrics.frames_written.inc(1);
                codec.encode(ServerMessage::Metrics(json), buf);
                self.phase = Phase::Idle;
                Action::Flush
            },
            Event::Records(recs) => {
                if let Phase::Records(n) = self.phase {
                    self.phase = Phase::Records(n + recs.len() as u64);
                }
                write_records(buf, &recs);
                if buffer_len(buf) > FLUSH_THRESHOLD {
                    Action::Flush
                } else {
                    Action::Receive
                }
            },
            Event::NoMoreRecords => {
                if let Phase::Records(n) = self.phase {
                    metrics.frames_written.inc(n);
                }
                self.phase = Phase::RangeEnd;
                Action::Flush
            },
            Event::RangeDone(res) => {
                let reply = match res {
                    Some(Ok(_)) => ServerMessage::RangeEnd,
                    Some(Err(e)) => ServerMessage::Error(e),
                    None => ServerMessage::Error(String::from_str("engine closed")),
                };
                metrics.frames_written.inc(1);
                codec.encode(reply, buf);
                self.phase = Phase::Idle;
                Action::Flush
            },
        }
    }
}

} // verus!
