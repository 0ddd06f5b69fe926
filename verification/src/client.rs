//! The client's side of a connection: what is made of the messages of the server.
use vstd::prelude::*;

use crate::proto::{
    decode_server, delimited, law_server_round_trip, rest_of, server_fits, server_frame, Record,
    RecordModel, ServerMessage, ServerModel,
};
use crate::server::{records_sent, sent};

verus! {

/// Why a request failed.
#[derive(Debug)]
pub enum ClientError {
    /// The server answered with an error.
    Server(String),
    /// The server answered with a message that does not answer the request.
    Unexpected(ServerMessage),
    /// What came from the server could not be read.
    Transport(String),
    /// The server closed the connection.
    Closed,
}

/// What came from the server: a message, a failure to read one, or nothing more.
#[derive(Debug)]
pub enum Incoming {
    Message(ServerMessage),
    Failed(String),
    Closed,
}

/// What is made of the answer to an insert.
pub open spec fn insert_outcome(reply: Incoming) -> Result<(), ClientError> {
    match reply {
        Incoming::Message(ServerMessage::InsertOk) => Ok(()),
        Incoming::Message(ServerMessage::Error(e)) => Err(ClientError::Server(e)),
        Incoming::Message(m) => Err(ClientError::Unexpected(m)),
        Incoming::Failed(e) => Err(ClientError::Transport(e)),
        Incoming::Closed => Err(ClientError::Closed),
    }
}

/// What is made of the answer to an insert or to a batch of them.
pub fn insert_reply(reply: Incoming) -> (r: Result<(), ClientError>)
    ensures
        r == insert_outcome(reply),
{
    match reply {
        Incoming::Message(msg) => match msg {
            ServerMessage::InsertOk => Ok(()),
            ServerMessage::Error(e) => Err(ClientError::Server(e)),
            ServerMessage::RangeRecord(r) => Err(
                ClientError::Unexpected(ServerMessage::RangeRecord(r)),
            ),
            ServerMessage::RangeEnd => Err(ClientError::Unexpected(ServerMessage::RangeEnd)),
            ServerMessage::Metrics(j) => Err(ClientError::Unexpected(ServerMessage::Metrics(j))),
            ServerMessage::Pong => Err(ClientError::Unexpected(ServerMessage::Pong)),
        },
        Incoming::Failed(e) => Err(ClientError::Transport(e)),
        Incoming::Closed => Err(ClientError::Closed),
    }
}

/// Whether the message is no part of the answer to a query.
pub open spec fn answers_no_query(m: ServerMessage) -> bool {
    m is InsertOk || m is Metrics || m is Pong
}

/// The records of a query that have come in.
#[derive(Debug)]
pub struct RangeReply {
    records: Vec<Record>,
}

/// How it stands with a query.
#[derive(Debug)]
pub enum RangeProgress {
    /// More is to come.
    More(RangeReply),
    /// The records of the query.
    Done(Vec<Record>),
    /// The query failed.
    Failed(ClientError),
}

impl RangeReply {
    /// The records that have come in.
    pub closed spec fn received(&self) -> Seq<Record> {
        self.records@
    }

    /// No records yet.
    pub fn new() -> (r: Self)
        ensures
            r.received() == Seq::<Record>::empty(),
    {
        RangeReply { records: Vec::new() }
    }

    /// Takes what came from the server: a record is kept, the end gives all records, and
    /// anything else fails the query.
    pub fn take(self, reply: Incoming) -> (r: RangeProgress)
        ensures
            reply matches Incoming::Message(ServerMessage::RangeRecord(rec)) ==> (r matches
                RangeProgress::More(next) && next.received() == self.received().push(rec)),
            reply matches Incoming::Message(ServerMessage::RangeEnd) ==> (r matches
                RangeProgress::Done(v) && v@ == self.received()),
            reply matches Incoming::Message(ServerMessage::Error(e)) ==> r
                == RangeProgress::Failed(ClientError::Server(e)),
            reply matches Incoming::Message(m) ==> (answers_no_query(m) ==> r
                == RangeProgress::Failed(ClientError::Unexpected(m))),
            reply matches Incoming::Failed(e) ==> r == RangeProgress::Failed(
                ClientError::Transport(e),
            ),
            reply is Closed ==> r == RangeProgress::Failed(ClientError::Closed),
    {
        let mut records = self.records;
        match reply {
            Incoming::Message(msg) => match msg {
                ServerMessage::RangeRecord(rec) => {
                    records.push(rec);
                    RangeProgress::More(RangeReply { records })
                },
                ServerMessage::RangeEnd => RangeProgress::Done(records),
                ServerMessage::Error(e) => RangeProgress::Failed(ClientError::Server(e)),
                ServerMessage::InsertOk => RangeProgress::Failed(
                    ClientError::Unexpected(ServerMessage::InsertOk),
                ),
                ServerMessage::Metrics(j) => RangeProgress::Failed(
                    ClientError::Unexpected(ServerMessage::Metrics(j)),
                ),
                ServerMessage::Pong => RangeProgress::Failed(
                    ClientError::Unexpected(ServerMessage::Pong),
                ),
            },
            Incoming::Failed(e) => RangeProgress::Failed(ClientError::Transport(e)),
            Incoming::Closed => RangeProgress::Failed(ClientError::Closed),
        }
    }
}

/// What is in the bytes that come as the answer to a query: the records, and the message that
/// closes the answer.
pub open spec fn answer_in(b: Seq<u8>) -> Option<(Seq<RecordModel>, ServerModel)>
    decreases b.len(),
{
    match decode_server(b) {
        Ok(Some(ServerModel::RangeRecord(r))) => if rest_of(b).len() < b.len() {
            match answer_in(rest_of(b)) {
                Some((rs, end)) => Some((seq![r] + rs, end)),
                None => None,
            }
        } else {
            None
        },
        Ok(Some(end)) => Some((Seq::empty(), end)),
        _ => None,
    }
}

/// What each of the records says.
pub open spec fn said(recs: Seq<Record>) -> Seq<RecordModel> {
    Seq::new(recs.len(), |i: int| recs[i]@)
}

proof fn lemma_records_sent_first(recs: Seq<Record>)
    requires
        recs.len() > 0,
    ensures
        records_sent(recs) == sent(ServerModel::RangeRecord(recs[0]@)) + records_sent(
            recs.drop_first(),
        ),
    decreases recs.len(),
{
    let first = sent(ServerModel::RangeRecord(recs[0]@));
    if recs.len() == 1 {
        assert(recs.drop_last() =~= Seq::<Record>::empty());
        assert(recs.drop_first() =~= Seq::<Record>::empty());
        assert(records_sent(recs) =~= first + records_sent(recs.drop_first()));
    } else {
        let front = recs.drop_last();
        lemma_records_sent_first(front);
        assert(front.drop_first() =~= recs.drop_first().drop_last());
        assert(recs.drop_first().last() == recs.last());
        assert(records_sent(recs) =~= first + records_sent(recs.drop_first()));
    }
}

/// A client reads from what the server sends for a query just the records, in their order, and
/// the message that closes the answer.
pub proof fn law_answer_round_trip(recs: Seq<Record>, end: ServerModel, rest: Seq<u8>)
    requires
        forall|i: int|
            0 <= i < recs.len() ==> server_fits(ServerModel::RangeRecord((#[trigger] recs[i])@)),
        server_fits(end),
        !(end is RangeRecord),
    ensures
        answer_in(records_sent(recs) + sent(end) + rest) == Some((said(recs), end)),
    decreases recs.len(),
{
    let b = records_sent(recs) + sent(end) + rest;
    if recs.len() == 0 {
        assert(b =~= delimited(server_frame(end)) + rest);
        law_server_round_trip(end, rest);
        assert(said(recs) =~= Seq::<RecordModel>::empty());
    } else {
        let first = ServerModel::RangeRecord(recs[0]@);
        let tail = recs.drop_first();
        let rest_b = records_sent(tail) + sent(end) + rest;
        lemma_records_sent_first(recs);
        assert(b =~= delimited(server_frame(first)) + rest_b);
        assert(server_fits(first));
        law_server_round_trip(first, rest_b);
        assert forall|i: int| 0 <= i < tail.len() implies server_fits(
            ServerModel::RangeRecord((#[trigger] tail[i])@),
        ) by {
            assert(tail[i] == recs[i + 1]);
        }
        law_answer_round_trip(tail, end, rest);
        assert(said(recs) =~= seq![recs[0]@] + said(tail));
    }
}

} // verus!
