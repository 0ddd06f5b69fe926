//! What holds of the talk between a client and the server: what is asked is what the engine is
//! asked, what the engine says is what the client hears, and every message is counted.
use bytes::BytesMut;
use vstd::prelude::*;

use crate::buffer::buffered;
use crate::client::{
    answer_in, insert_outcome, insert_reply, law_answer_round_trip, said, ClientError, Incoming,
    RangeProgress, RangeReply,
};
use crate::codec::lemma_be_bytes_len;
use crate::metrics::{counted_up, server_snapshot, ServerMetrics, ServerSnapshot};
use crate::proto::{
    decode_server, law_server_round_trip, rest_of, server_fits, BatchInsert, ClientMessage,
    Command, Insert, ProtoError, Range, Record, ServerMessage, ServerModel,
};
use crate::server::{
    accept, acts, expected, next_phase, range_answer, records_sent, sent, tally_event, written,
    Action, Event, Phase, ServerTally, Session,
};

verus! {

/// Each message of a client is heard only while none is being answered, and is counted once. A
/// record, a batch, a query and a wish for the metrics go to the engine just as they came, and
/// nothing is said before the engine has answered. A ping is answered at once.
pub proof fn law_message_heard(m: ClientMessage, phase: Phase, t: ServerTally, have: nat, action: Action)
    requires
        acts(Event::Message(m), have, action),
        t.read < u64::MAX,
        t.written < u64::MAX,
    ensures
        expected(phase, Event::Message(m)) <==> phase is Idle,
        tally_event(t, Phase::Idle, Event::Message(m)).read == t.read + 1,
        tally_event(t, Phase::Idle, Event::Message(m)).accepted == t.accepted,
        tally_event(t, Phase::Idle, Event::Message(m)).active == t.active,
        tally_event(t, Phase::Idle, Event::Message(m)).written == t.written + (if m is Ping {
            1int
        } else {
            0
        }),
        m matches ClientMessage::Insert(i) ==> action == Action::Submit(Command::Insert(i)),
        m matches ClientMessage::BatchInsert(b) ==> action == Action::Submit(
            Command::BatchInsert(b),
        ),
        m matches ClientMessage::Range(r) ==> action == Action::Submit(Command::Range(r)),
        m is Metrics ==> action == Action::Submit(Command::Metrics),
        m is Ping ==> action is Flush && next_phase(phase, Event::Message(m)) is Idle,
        m !is Ping ==> written(Event::Message(m)).len() == 0 && !(next_phase(
            phase,
            Event::Message(m),
        ) is Idle),
{
}

/// A client that pings hears a pong.
pub proof fn law_ping_answered(rest: Seq<u8>)
    ensures
        ({
            let b = written(Event::Message(ClientMessage::Ping)) + rest;
            &&& decode_server(b) matches Ok(Some(ServerModel::Pong))
            &&& rest_of(b) == rest
        }),
{
    law_server_round_trip(ServerModel::Pong, rest);
}

/// What the engine says to an insert is what the client hears: that it was done, or the words of
/// the error. It is one message, counted once, sent at once, and then the next one is awaited.
pub proof fn law_insert_answered(
    i: Insert,
    b: BatchInsert,
    res: Result<(), String>,
    m: ServerMessage,
    rest: Seq<u8>,
    t: ServerTally,
    have: nat,
    action: Action,
)
    requires
        res matches Err(e) ==> server_fits(ServerModel::Error(e@)),
        acts(Event::Inserted(res), have, action),
        t.written < u64::MAX,
    ensures
        ({
            let phase = next_phase(Phase::Idle, Event::Message(ClientMessage::Insert(i)));
            let heard = decode_server(written(Event::Inserted(res)) + rest);
            let after = tally_event(t, phase, Event::Inserted(res));
            &&& next_phase(Phase::Idle, Event::Message(ClientMessage::BatchInsert(b))) == phase
            &&& expected(phase, Event::Inserted(res))
            &&& next_phase(phase, Event::Inserted(res)) is Idle
            &&& action is Flush
            &&& after.written == t.written + 1
            &&& after.read == t.read && after.accepted == t.accepted && after.active == t.active
            &&& rest_of(written(Event::Inserted(res)) + rest) == rest
            &&& (res is Ok ==> heard == Ok::<Option<ServerModel>, ProtoError>(
                Some(ServerModel::InsertOk),
            ))
            &&& (res matches Err(e) ==> heard == Ok::<Option<ServerModel>, ProtoError>(
                Some(ServerModel::Error(e@)),
            ))
            &&& (heard == Ok::<Option<ServerModel>, ProtoError>(Some(m@)) ==> (insert_outcome(
                Incoming::Message(m),
            ) is Ok <==> res is Ok))
            &&& (heard == Ok::<Option<ServerModel>, ProtoError>(Some(m@)) ==> (res matches Err(e)
                ==> (insert_outcome(Incoming::Message(m)) matches Err(ClientError::Server(said))
                && said@ == e@)))
        }),
{
    match res {
        Ok(_) => law_server_round_trip(ServerModel::InsertOk, rest),
        Err(e) => law_server_round_trip(ServerModel::Error(e@), rest),
    }
}

/// No answer but that it was done makes an insert a success.
pub proof fn law_insert_outcome(reply: Incoming)
    ensures
        insert_outcome(reply) is Ok <==> (reply matches Incoming::Message(m) && m is InsertOk),
        reply is Closed ==> insert_outcome(reply) matches Err(ClientError::Closed),
        reply matches Incoming::Failed(e) ==> (insert_outcome(reply) matches Err(
            ClientError::Transport(said),
        ) && said == e),
{
}

/// The metrics that are told are what the client hears.
pub proof fn law_metrics_answered(json: String, rest: Seq<u8>, t: ServerTally, have: nat, action: Action)
    requires
        server_fits(ServerModel::Metrics(json@)),
        acts(Event::Measured(json), have, action),
        t.written < u64::MAX,
    ensures
        ({
            let phase = next_phase(Phase::Idle, Event::Message(ClientMessage::Metrics));
            let heard = decode_server(written(Event::Measured(json)) + rest);
            &&& expected(phase, Event::Measured(json))
            &&& next_phase(phase, Event::Measured(json)) is Idle
            &&& action is Flush
            &&& tally_event(t, phase, Event::Measured(json)) == (ServerTally {
                written: (t.written + 1) as u64,
                ..t
            })
            &&& heard == Ok::<Option<ServerModel>, ProtoError>(Some(ServerModel::Metrics(json@)))
            &&& rest_of(written(Event::Measured(json)) + rest) == rest
        }),
{
    law_server_round_trip(ServerModel::Metrics(json@), rest);
}

/// What is put into the buffer on all the events.
pub open spec fn all_written(events: Seq<Event>) -> Seq<u8>
    decreases events.len(),
{
    if events.len() == 0 {
        Seq::empty()
    } else {
        all_written(events.drop_last()) + written(events.last())
    }
}

/// What a connection waits for after all the events.
pub open spec fn phase_after(phase: Phase, events: Seq<Event>) -> Phase
    decreases events.len(),
{
    if events.len() == 0 {
        phase
    } else {
        next_phase(phase_after(phase, events.drop_last()), events.last())
    }
}

/// What is counted on all the events.
pub open spec fn tally_after(t: ServerTally, phase: Phase, events: Seq<Event>) -> ServerTally
    decreases events.len(),
{
    if events.len() == 0 {
        t
    } else {
        tally_event(
            tally_after(t, phase, events.drop_last()),
            phase_after(phase, events.drop_last()),
            events.last(),
        )
    }
}

/// Whether a connection can be told of all the events, one after the other.
pub open spec fn all_expected(phase: Phase, events: Seq<Event>) -> bool {
    forall|i: int|
        0 <= i < events.len() ==> expected(phase_after(phase, events.take(i)), #[trigger] events[i])
}

/// The records of a query that come in so many portions.
pub open spec fn portions(parts: Seq<Vec<Record>>) -> Seq<Event> {
    Seq::new(parts.len(), |i: int| Event::Records(parts[i]))
}

/// All the records of the portions.
pub open spec fn all_records(parts: Seq<Vec<Record>>) -> Seq<Record>
    decreases parts.len(),
{
    if parts.len() == 0 {
        Seq::empty()
    } else {
        all_records(parts.drop_last()) + parts.last()@
    }
}

proof fn lemma_records_sent_more(a: Seq<Record>, b: Seq<Record>)
    ensures
        records_sent(a + b) == records_sent(a) + records_sent(b),
    decreases b.len(),
{
    if b.len() == 0 {
        assert(a + b =~= a);
        assert(records_sent(a + b) =~= records_sent(a) + records_sent(b));
    } else {
        lemma_records_sent_more(a, b.drop_last());
        assert((a + b).drop_last() =~= a + b.drop_last());
        assert((a + b).last() == b.last());
        assert(records_sent(a + b) =~= records_sent(a) + records_sent(b));
    }
}

proof fn lemma_portions(r: Range, parts: Seq<Vec<Record>>, t: ServerTally)
    requires
        all_records(parts).len() <= u64::MAX,
    ensures
        ({
            let asked = seq![Event::Message(ClientMessage::Range(r))];
            let events = asked + portions(parts);
            &&& all_written(events) == records_sent(all_records(parts))
            &&& phase_after(Phase::Idle, events) == Phase::Records(all_records(parts).len() as u64)
            &&& tally_after(t, Phase::Idle, events) == (ServerTally {
                read: counted_up(t.read, 1),
                ..t
            })
            &&& all_expected(Phase::Idle, events)
        }),
    decreases parts.len(),
{
    let asked = seq![Event::Message(ClientMessage::Range(r))];
    let events = asked + portions(parts);
    if parts.len() == 0 {
        reveal_with_fuel(all_written, 2);
        reveal_with_fuel(phase_after, 2);
        reveal_with_fuel(tally_after, 2);
        assert(events =~= asked);
        assert(asked.drop_last() =~= Seq::<Event>::empty());
        assert(all_written(Seq::<Event>::empty()) =~= Seq::<u8>::empty());
        assert(all_written(asked) =~= Seq::<u8>::empty());
        assert(events.take(0) =~= Seq::<Event>::empty());
    } else {
        let front = parts.drop_last();
        lemma_portions(r, front, t);
        let before = asked + portions(front);
        assert(events.drop_last() =~= before);
        assert(events.last() == Event::Records(parts.last()));
        lemma_records_sent_more(all_records(front), parts.last()@);
        assert(all_written(events) == records_sent(all_records(parts)));
        assert(phase_after(Phase::Idle, events) == Phase::Records(
            all_records(parts).len() as u64,
        ));
        assert(tally_after(t, Phase::Idle, events) == tally_after(t, Phase::Idle, before));
        assert forall|i: int| 0 <= i < events.len() implies expected(
            phase_after(Phase::Idle, events.take(i)),
            #[trigger] events[i],
        ) by {
            if i < before.len() {
                assert(events[i] == before[i]);
                assert(events.take(i) =~= before.take(i));
            } else {
                assert(events.take(i) =~= before);
            }
        }
    }
}

proof fn lemma_closed_fits()
    ensures
        server_fits(ServerModel::Error("engine closed"@)),
{
    reveal_strlit("engine closed");
    let s = "engine closed"@;
    assert(vstd::utf8::is_ascii_chars(s));
    vstd::utf8::is_ascii_chars_encode_utf8(s);
    lemma_be_bytes_len(vstd::utf8::encode_utf8(s).len(), 4);
}

/// A query from the message that asks to the one that closes the answer.
#[verifier::opaque]
pub open spec fn query_events(
    r: Range,
    parts: Seq<Vec<Record>>,
    res: Option<Result<(), String>>,
) -> Seq<Event> {
    seq![Event::Message(ClientMessage::Range(r))] + portions(parts) + seq![
        Event::NoMoreRecords,
        Event::RangeDone(res),
    ]
}

proof fn lemma_counted_up(before: u64, n: nat)
    requires
        before + n <= u64::MAX,
    ensures
        counted_up(before, n) == before + n,
{
}

/// For a query the server counts one message more that was read, and one more that was written
/// for each record and one for the end; that is what it writes. Everything comes when it is
/// waited for, and in the end the next message is waited for.
pub proof fn law_query_counted(
    r: Range,
    parts: Seq<Vec<Record>>,
    res: Option<Result<(), String>>,
    t: ServerTally,
)
    requires
        t.read < u64::MAX,
        t.written + all_records(parts).len() < u64::MAX,
    ensures
        all_expected(Phase::Idle, query_events(r, parts, res)),
        phase_after(Phase::Idle, query_events(r, parts, res)) is Idle,
        all_written(query_events(r, parts, res)) == records_sent(all_records(parts)) + sent(
            range_answer(res),
        ),
        ({
            let after = tally_after(t, Phase::Idle, query_events(r, parts, res));
            &&& after.read == t.read + 1
            &&& after.written == t.written + all_records(parts).len() + 1
            &&& after.accepted == t.accepted
            &&& after.active == t.active
        }),
{
    let asked = seq![Event::Message(ClientMessage::Range(r))] + portions(parts);
    let told = asked.push(Event::NoMoreRecords);
    reveal(query_events);
    let events = query_events(r, parts, res);
    lemma_portions(r, parts, t);
    assert(told.drop_last() =~= asked);
    assert(told.last() == Event::NoMoreRecords);
    assert(events.drop_last() =~= told);
    assert(events.last() == Event::RangeDone(res));
    assert(all_written(told) =~= records_sent(all_records(parts)));
    assert(phase_after(Phase::Idle, told) is RangeEnd);
    lemma_counted_up(t.read, 1);
    lemma_counted_up(t.written, all_records(parts).len());
    let mid = tally_after(t, Phase::Idle, told);
    assert(mid == (ServerTally {
        read: counted_up(t.read, 1),
        written: counted_up(t.written, all_records(parts).len()),
        ..t
    }));
    lemma_counted_up(mid.written, 1);
    assert forall|i: int| 0 <= i < events.len() implies expected(
        phase_after(Phase::Idle, events.take(i)),
        #[trigger] events[i],
    ) by {
        if i < asked.len() {
            assert(events[i] == asked[i]);
            assert(events.take(i) =~= asked.take(i));
        } else if i == asked.len() {
            assert(events.take(i) =~= asked);
        } else {
            assert(events.take(i) =~= told);
        }
    }
}

/// A client that asks hears all the records, in their order, and then the end of the query, or
/// the words of the error it ended with, in whatever portions the records come.
pub proof fn law_query_heard(
    r: Range,
    parts: Seq<Vec<Record>>,
    res: Option<Result<(), String>>,
    rest: Seq<u8>,
)
    requires
        all_records(parts).len() < u64::MAX,
        forall|i: int|
            0 <= i < all_records(parts).len() ==> server_fits(
                ServerModel::RangeRecord((#[trigger] all_records(parts)[i])@),
            ),
        res matches Some(Err(e)) ==> server_fits(ServerModel::Error(e@)),
    ensures
        answer_in(all_written(query_events(r, parts, res)) + rest) == Some(
            (
                said(all_records(parts)),
                match res {
                    Some(Ok(_)) => ServerModel::RangeEnd,
                    Some(Err(e)) => ServerModel::Error(e@),
                    None => ServerModel::Error("engine closed"@),
                },
            ),
        ),
{
    let t = ServerTally { accepted: 0, active: 0, read: 0, written: 0 };
    lemma_closed_fits();
    law_query_counted(r, parts, res, t);
    law_answer_round_trip(all_records(parts), range_answer(res), rest);
}

/// Records are held back until there are more than 8192 bytes of them; everything else is sent
/// at once.
pub proof fn law_sent_in_time(recs: Vec<Record>, res: Option<Result<(), String>>, have: nat, action: Action)
    ensures
        acts(Event::Records(recs), have, action) && have > 8192 ==> action is Flush,
        acts(Event::Records(recs), have, action) && have <= 8192 ==> action is Receive,
        acts(Event::NoMoreRecords, have, action) ==> action is Flush,
        acts(Event::RangeDone(res), have, action) ==> action is Flush,
{
}

/// What is counted of the server is what it tells of itself, under the same names.
pub proof fn law_server_tally_told(m: ServerMetrics)
    ensures
        server_snapshot(m).connections_accepted == m@.accepted,
        server_snapshot(m).connections_active == m@.active,
        server_snapshot(m).frames_read == m@.read,
        server_snapshot(m).frames_written == m@.written,
{
}

/// On a message a connection hands the command to the engine and says nothing, but to a ping,
/// which it answers with a pong. It counts the message as read.
pub proof fn law_step_on_message(
    s: &mut Session,
    m: ClientMessage,
    buf: &mut BytesMut,
    metrics: &mut ServerMetrics,
    action: Action,
)
    requires
        call_ensures(Session::step, (s, Event::Message(m), buf, metrics), action),
        old(s).phase() is Idle,
        server_snapshot(*old(metrics)).frames_read < u64::MAX,
        server_snapshot(*old(metrics)).frames_written < u64::MAX,
    ensures
        ({
            let before = server_snapshot(*old(metrics));
            let after = server_snapshot(*final(metrics));
            let said = buffered(*final(buf)).skip(buffered(*old(buf)).len() as int);
            &&& after.frames_read == before.frames_read + 1
            &&& after.connections_accepted == before.connections_accepted
            &&& after.connections_active == before.connections_active
            &&& m is Ping ==> after.frames_written == before.frames_written + 1
            &&& m !is Ping ==> after.frames_written == before.frames_written
            &&& m is Ping ==> action is Flush && final(s).phase() is Idle && decode_server(said)
                == Ok::<Option<ServerModel>, ProtoError>(Some(ServerModel::Pong)) && rest_of(
                said,
            ).len() == 0
            &&& m !is Ping ==> said.len() == 0 && !(final(s).phase() is Idle)
            &&& (m matches ClientMessage::Insert(i) ==> action == Action::Submit(
                Command::Insert(i),
            ))
            &&& (m matches ClientMessage::BatchInsert(b) ==> action == Action::Submit(
                Command::BatchInsert(b),
            ))
            &&& (m matches ClientMessage::Range(r) ==> action == Action::Submit(
                Command::Range(r),
            ))
            &&& (m is Metrics ==> action == Action::Submit(Command::Metrics))
        }),
{
    let none = Seq::<u8>::empty();
    let said = buffered(*final(buf)).skip(buffered(*old(buf)).len() as int);
    assert(said =~= written(Event::Message(m)));
    assert(written(Event::Message(m)) + none =~= said);
    lemma_counted_up(old(metrics)@.read, 1);
    lemma_counted_up(old(metrics)@.written, 1);
    law_server_round_trip(ServerModel::Pong, none);
}

/// On the answer of the engine to an insert a connection tells the client just that, in one
/// message that it counts, and waits for the next.
pub proof fn law_step_on_answer(
    s: &mut Session,
    res: Result<(), String>,
    buf: &mut BytesMut,
    metrics: &mut ServerMetrics,
    action: Action,
)
    requires
        call_ensures(Session::step, (s, Event::Inserted(res), buf, metrics), action),
        old(s).phase() is Insert,
        res matches Err(e) ==> server_fits(ServerModel::Error(e@)),
        server_snapshot(*old(metrics)).frames_written < u64::MAX,
    ensures
        ({
            let before = server_snapshot(*old(metrics));
            let after = server_snapshot(*final(metrics));
            let said = buffered(*final(buf)).skip(buffered(*old(buf)).len() as int);
            &&& after.frames_written == before.frames_written + 1
            &&& after.frames_read == before.frames_read
            &&& after.connections_active == before.connections_active
            &&& action is Flush
            &&& final(s).phase() is Idle
            &&& decode_server(said) == Ok::<Option<ServerModel>, ProtoError>(
                Some(
                    match res {
                        Ok(_) => ServerModel::InsertOk,
                        Err(e) => ServerModel::Error(e@),
                    },
                ),
            )
            &&& rest_of(said).len() == 0
        }),
{
    let none = Seq::<u8>::empty();
    let said = buffered(*final(buf)).skip(buffered(*old(buf)).len() as int);
    assert(said =~= written(Event::Inserted(res)));
    assert(written(Event::Inserted(res)) + none =~= said);
    lemma_counted_up(old(metrics)@.written, 1);
    match res {
        Ok(_) => law_server_round_trip(ServerModel::InsertOk, none),
        Err(e) => law_server_round_trip(ServerModel::Error(e@), none),
    }
}

/// On any event a connection writes, counts, does and then waits for what that event asks for.
pub proof fn law_step(
    s: &mut Session,
    event: Event,
    buf: &mut BytesMut,
    metrics: &mut ServerMetrics,
    action: Action,
)
    requires
        call_ensures(Session::step, (s, event, buf, metrics), action),
    ensures
        final(s).phase() == next_phase(old(s).phase(), event),
        buffered(*final(buf)) == buffered(*old(buf)) + written(event),
        final(metrics)@ == tally_event(old(metrics)@, old(s).phase(), event),
        acts(event, buffered(*final(buf)).len(), action),
{
}

/// A connection that is accepted counts as accepted; one that is opened counts as active until
/// it is closed. A frame that is no message counts as read.
pub proof fn law_connections_counted(
    a: &mut ServerMetrics,
    b: &mut ServerMetrics,
    c: &mut ServerMetrics,
    d: &mut ServerMetrics,
    s: Session,
)
    requires
        call_ensures(accept, (a,), ()),
        call_ensures(Session::open, (b,), s),
        call_ensures(Session::close, (s, c), ()),
        call_ensures(Session::bad_frame, (&s, d), ()),
        server_snapshot(*old(a)).connections_accepted < u64::MAX,
        server_snapshot(*old(a)).connections_active < i64::MAX,
        server_snapshot(*old(b)).connections_active < i64::MAX,
        server_snapshot(*old(c)).connections_active > i64::MIN,
        server_snapshot(*old(d)).frames_read < u64::MAX,
    ensures
        s.phase() is Idle,
        server_snapshot(*final(a)) == (ServerSnapshot {
            connections_accepted: (server_snapshot(*old(a)).connections_accepted + 1) as u64,
            connections_active: (server_snapshot(*old(a)).connections_active + 1) as i64,
            ..server_snapshot(*old(a))
        }),
        server_snapshot(*final(b)) == (ServerSnapshot {
            connections_active: (server_snapshot(*old(b)).connections_active + 1) as i64,
            ..server_snapshot(*old(b))
        }),
        server_snapshot(*final(c)) == (ServerSnapshot {
            connections_active: (server_snapshot(*old(c)).connections_active - 1) as i64,
            ..server_snapshot(*old(c))
        }),
        server_snapshot(*final(d)) == (ServerSnapshot {
            frames_read: (server_snapshot(*old(d)).frames_read + 1) as u64,
            ..server_snapshot(*old(d))
        }),
{
    law_server_tally_told(*old(a));
    law_server_tally_told(*final(a));
    law_server_tally_told(*old(b));
    law_server_tally_told(*final(b));
    law_server_tally_told(*old(c));
    law_server_tally_told(*final(c));
    law_server_tally_told(*old(d));
    law_server_tally_told(*final(d));
    lemma_counted_up(old(a)@.accepted, 1);
    lemma_counted_up(old(d)@.read, 1);
}

/// A client puts the records of a query behind each other as they come. The end gives it all of
/// them; an error of the server, a message that is no part of an answer, a failure and a closed
/// connection each end the query as such.
pub proof fn law_reply_taken(q: RangeReply, reply: Incoming, p: RangeProgress, fresh: RangeReply)
    requires
        call_ensures(RangeReply::take, (q, reply), p),
        call_ensures(RangeReply::new, (), fresh),
    ensures
        fresh.received().len() == 0,
        reply matches Incoming::Message(ServerMessage::RangeRecord(rec)) ==> (p matches
            RangeProgress::More(next) && next.received() == q.received().push(rec)),
        reply matches Incoming::Message(ServerMessage::RangeEnd) ==> (p matches
            RangeProgress::Done(v) && v@ == q.received()),
        reply matches Incoming::Message(ServerMessage::Error(e)) ==> p == RangeProgress::Failed(
            ClientError::Server(e),
        ),
        reply matches Incoming::Message(m) ==> (m is InsertOk || m is Metrics || m is Pong ==> p
            == RangeProgress::Failed(ClientError::Unexpected(m))),
        reply matches Incoming::Failed(e) ==> p == RangeProgress::Failed(ClientError::Transport(e)),
        reply is Closed ==> p == RangeProgress::Failed(ClientError::Closed),
        p is Done <==> (reply matches Incoming::Message(m) && m is RangeEnd),
        p is More <==> (reply matches Incoming::Message(m) && m is RangeRecord),
{
}

/// An insert succeeded just where the server said so.
pub proof fn law_reply_to_insert(reply: Incoming, r: Result<(), ClientError>)
    requires
        call_ensures(insert_reply, (reply,), r),
    ensures
        r is Ok <==> (reply matches Incoming::Message(m) && m is InsertOk),
        reply matches Incoming::Message(ServerMessage::Error(e)) ==> r == Err::<(), ClientError>(
            ClientError::Server(e),
        ),
        reply matches Incoming::Failed(e) ==> r == Err::<(), ClientError>(
            ClientError::Transport(e),
        ),
        reply is Closed ==> r == Err::<(), ClientError>(ClientError::Closed),
{
}

} // verus!
