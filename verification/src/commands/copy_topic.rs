//! Copying a snapshot of a topic to another topic.

use std::collections::{BTreeMap, HashSet};

use vstd::prelude::*;
use vstd::slice::slice_to_vec;
use vstd::string::*;

use crate::commands::{
    at_high, does_reach_high, full_headers, full_headers_view, is_at_high, outgoing_view,
    reaches_high, remaining_partitions, shows_end, unread, Item, KafkaMessage, Outgoing, OutgoingRecord,
    Signal, SnapshotStop,
};
use crate::error::Error;
use crate::formatter::{bytes_view, copy_bytes, slice_view};
use crate::offsets::Offset;
use crate::text::{decimal, decimal_u64};

verus! {

/// What the `topic:copy` command is asked.
#[derive(Debug)]
pub struct Args {
    /// the topic that is read
    pub source: String,
    /// the topic that is written
    pub dest: String,
    /// consumer group name
    pub group: Option<String>,
    /// where reading starts: a timestamp (ms), RFC 3339, or 0 for the beginning
    pub from: String,
    /// maximum number of messages to copy
    pub count: Option<u64>,
    /// messages sent and acknowledged together
    pub batch_size: usize,
    /// producer compression
    pub compression: Option<String>,
}

/// A message that waits to be sent.
#[derive(Debug)]
pub struct PendingMessage {
    pub payload: Option<Vec<u8>>,
    pub key: Option<Vec<u8>>,
    pub headers: Option<Vec<(String, Option<Vec<u8>>)>>,
}

/// What is copied of a record: payload, key and headers. A null payload differs from an empty one,
/// and a header without a value from one with an empty value.
#[verifier::ext_equal]
pub struct Copied {
    pub payload: Option<Seq<u8>>,
    pub key: Option<Seq<u8>>,
    pub headers: Option<Seq<(Seq<char>, Option<Seq<u8>>)>>,
}

impl View for PendingMessage {
    type V = Copied;

    open spec fn view(&self) -> Copied {
        Copied {
            payload: bytes_view(self.payload),
            key: bytes_view(self.key),
            headers: full_headers_view(self.headers),
        }
    }
}

/// What is copied of a record.
pub open spec fn copied_of(message: KafkaMessage) -> Copied {
    Copied {
        payload: bytes_view(message.payload),
        key: bytes_view(message.key),
        headers: full_headers_view(message.headers),
    }
}

fn copy_full_headers(headers: &Vec<(String, Option<Vec<u8>>)>) -> (r: Vec<
    (String, Option<Vec<u8>>),
>)
    ensures
        full_headers(r@) == full_headers(headers@),
{
    let mut out: Vec<(String, Option<Vec<u8>>)> = Vec::new();
    let mut i: usize = 0;
    while i < headers.len()
        invariant
            i <= headers@.len(),
            out@.len() == i,
            forall|j: int|
                0 <= j < i ==> (#[trigger] out@[j]).0@ == headers@[j].0@ && bytes_view(out@[j].1)
                    == bytes_view(headers@[j].1),
        decreases headers.len() - i,
    {
        let name = headers[i].0.clone();
        let value = match &headers[i].1 {
            Some(bytes) => Some(slice_to_vec(bytes.as_slice())),
            None => None,
        };
        out.push((name, value));
        i += 1;
    }
    proof {
        assert(full_headers(out@) =~= full_headers(headers@));
    }
    out
}

/// The record that is sent for a copied message: its payload, key and headers, to the destination;
/// the partition is left to the producer.
pub fn future_record(
    dest: &str,
    payload: Option<&[u8]>,
    key: Option<&[u8]>,
    headers: Option<&Vec<(String, Option<Vec<u8>>)>>,
) -> (r: OutgoingRecord)
    ensures
        r@ == (Outgoing {
            topic: dest@,
            payload: slice_view(payload),
            key: slice_view(key),
            headers: match headers {
                Some(list) => Some(full_headers(list@)),
                None => None,
            },
            partition: None,
        }),
{
    OutgoingRecord {
        topic: dest.to_owned(),
        payload: copy_bytes(payload),
        key: copy_bytes(key),
        headers: match headers {
            Some(list) => Some(copy_full_headers(list)),
            None => None,
        },
        partition: None,
    }
}

/// The records that are sent for some messages.
pub open spec fn outgoing(dest: Seq<char>, copies: Seq<Copied>) -> Seq<Outgoing> {
    Seq::new(
        copies.len(),
        |i: int|
            Outgoing {
                topic: dest,
                payload: copies[i].payload,
                key: copies[i].key,
                headers: copies[i].headers,
                partition: None,
            },
    )
}

/// The contents of some messages.
pub open spec fn copies(messages: Seq<PendingMessage>) -> Seq<Copied> {
    Seq::new(messages.len(), |i: int| messages[i]@)
}

/// The records that are sent for a batch, one for each message, in their order.
pub fn batch_records(dest: &str, batch: &Vec<PendingMessage>) -> (r: Vec<OutgoingRecord>)
    ensures
        outgoing_view(r@) == outgoing(dest@, copies(batch@)),
{
    let mut out: Vec<OutgoingRecord> = Vec::new();
    let mut i: usize = 0;
    let ghost wanted = outgoing(dest@, copies(batch@));
    while i < batch.len()
        invariant
            i <= batch@.len(),
            wanted == outgoing(dest@, copies(batch@)),
            outgoing_view(out@) == wanted.take(i as int),
        decreases batch.len() - i,
    {
        let message = &batch[i];
        let payload = match &message.payload {
            Some(bytes) => Some(bytes.as_slice()),
            None => None,
        };
        let key = match &message.key {
            Some(bytes) => Some(bytes.as_slice()),
            None => None,
        };
        let ghost before = out@;
        let record = future_record(dest, payload, key, message.headers.as_ref());
        out.push(record);
        proof {
            assert(record@ =~= wanted[i as int]);
            assert(outgoing_view(out@) =~= outgoing_view(before).push(record@));
            assert(outgoing_view(out@) =~= wanted.take(i + 1));
        }
        i += 1;
    }
    proof {
        assert(wanted.take(wanted.len() as int) =~= wanted);
    }
    out
}

/// What holds throughout a run.
pub struct CopyCtx<'a> {
    pub watermarks: &'a BTreeMap<i32, (i64, i64)>,
    pub limit: u64,
    pub batch_size: usize,
}

/// How far a run has come: the partitions in which there is something to read, the number of
/// messages taken, and those that wait to be sent.
#[verifier::ext_equal]
pub struct CopyProgress {
    pub remaining: Set<i32>,
    pub total: int,
    pub pending: Seq<Copied>,
}

/// What a run comes to: how far it is, what is sent, and whether it has ended.
#[verifier::ext_equal]
pub struct CopyOutcome {
    pub after: CopyProgress,
    pub sent: Seq<Copied>,
    pub stop: Option<SnapshotStop>,
}

/// The run goes on with nothing sent.
pub open spec fn goes_on(after: CopyProgress) -> CopyOutcome {
    CopyOutcome { after, sent: Seq::empty(), stop: None }
}

/// All waiting messages are sent; the run ends if a reason is given.
pub open spec fn sends_all(progress: CopyProgress, stop: Option<SnapshotStop>) -> CopyOutcome {
    CopyOutcome {
        after: CopyProgress { pending: Seq::empty(), ..progress },
        sent: progress.pending,
        stop,
    }
}

/// A partition has nothing more to read; the run is complete if none has.
pub open spec fn partition_done(before: CopyProgress, partition: i32) -> CopyOutcome {
    let after = CopyProgress { remaining: before.remaining.remove(partition), ..before };
    if after.remaining.is_empty() {
        sends_all(after, Some(SnapshotStop::Complete))
    } else {
        goes_on(after)
    }
}

/// What a message comes to: a record below the high watermark is taken, and the batch is sent when
/// it is full or the run is complete.
pub open spec fn copy_message(
    ctx: CopyCtx<'_>,
    message: KafkaMessage,
    before: CopyProgress,
) -> CopyOutcome {
    let partition = message.partition;
    if at_high(ctx.watermarks@, partition, message.offset) {
        partition_done(before, partition)
    } else {
        let after = CopyProgress {
            remaining: if reaches_high(ctx.watermarks@, partition, message.offset) {
                before.remaining.remove(partition)
            } else {
                before.remaining
            },
            total: before.total + 1,
            pending: before.pending.push(copied_of(message)),
        };
        if after.remaining.is_empty() || after.total >= ctx.limit {
            sends_all(after, Some(SnapshotStop::Complete))
        } else if after.pending.len() >= ctx.batch_size {
            sends_all(after, None)
        } else {
            goes_on(after)
        }
    }
}

/// What a run comes to when it is told something. However it ends, what waits is sent.
pub open spec fn copy_step(ctx: CopyCtx<'_>, signal: Signal, before: CopyProgress) -> Result<
    CopyOutcome,
    Seq<char>,
> {
    match signal {
        Signal::Item(Item::Message(message)) => Ok(copy_message(ctx, message, before)),
        Signal::Item(Item::PartitionEof(partition)) => Ok(partition_done(before, partition)),
        Signal::Item(Item::Failed(text)) => Err(text@),
        Signal::Item(Item::Ended) => Ok(sends_all(before, Some(SnapshotStop::Complete))),
        Signal::Pending => Ok(goes_on(before)),
        Signal::Timeout => Ok(sends_all(before, Some(SnapshotStop::Timeout))),
        Signal::Sigint => Ok(sends_all(before, Some(SnapshotStop::Sigint))),
        Signal::Sigterm => Ok(sends_all(before, Some(SnapshotStop::Sigterm))),
    }
}

/// What is to be done: messages to send and await together, and how the run has ended, if it has.
#[derive(Debug)]
pub struct CopyAction {
    pub send: Vec<PendingMessage>,
    pub stop: Option<SnapshotStop>,
}

/// A run of the `topic:copy` command.
#[derive(Debug)]
pub struct CopyRun {
    pub remaining: HashSet<i32>,
    pub total: u64,
    pub batch: Vec<PendingMessage>,
}

impl CopyRun {
    /// How far the run has come.
    pub open spec fn progress(self) -> CopyProgress {
        CopyProgress {
            remaining: self.remaining@,
            total: self.total as int,
            pending: copies(self.batch@),
        }
    }

    /// A run that begins and reads what remains of the given partitions.
    pub fn new(remaining: HashSet<i32>) -> (r: CopyRun)
        ensures
            r.progress() == (CopyProgress {
                remaining: remaining@,
                total: 0,
                pending: Seq::empty(),
            }),
    {
        let run = CopyRun { remaining, total: 0, batch: Vec::new() };
        proof {
            assert(copies(run.batch@) =~= Seq::<Copied>::empty());
        }
        run
    }

    /// The run that reads what remains of some assignments, unless nothing does.
    pub fn begin(
        assignments: &Vec<(i32, Offset)>,
        watermarks: &BTreeMap<i32, (i64, i64)>,
    ) -> (r: Option<CopyRun>)
        ensures
            match r {
                Some(run) => {
                    &&& !unread(assignments@, watermarks@).is_empty()
                    &&& run.progress() == (CopyProgress {
                        remaining: unread(assignments@, watermarks@),
                        total: 0,
                        pending: Seq::empty(),
                    })
                },
                None => unread(assignments@, watermarks@).is_empty(),
            },
    {
        let remaining = remaining_partitions(assignments, watermarks);
        if remaining.is_empty() {
            None
        } else {
            Some(CopyRun::new(remaining))
        }
    }

    fn go_on(&mut self) -> (r: CopyAction)
        ensures
            *final(self) == *old(self),
            copies(r.send@) == Seq::<Copied>::empty(),
            r.stop is None,
    {
        let action = CopyAction { send: Vec::new(), stop: None };
        proof {
            assert(copies(action.send@) =~= Seq::<Copied>::empty());
        }
        action
    }

    fn send_all(&mut self, stop: Option<SnapshotStop>) -> (r: CopyAction)
        ensures
            final(self).progress() == sends_all(old(self).progress(), stop).after,
            copies(r.send@) == sends_all(old(self).progress(), stop).sent,
            r.stop == stop,
    {
        let mut send: Vec<PendingMessage> = Vec::new();
        std::mem::swap(&mut send, &mut self.batch);
        proof {
            assert(copies(self.batch@) =~= Seq::<Copied>::empty());
        }
        CopyAction { send, stop }
    }

    fn finish_partition(&mut self, partition: i32) -> (r: CopyAction)
        ensures
            ({
                let outcome = partition_done(old(self).progress(), partition);
                &&& final(self).progress() == outcome.after
                &&& copies(r.send@) == outcome.sent
                &&& r.stop == outcome.stop
            }),
    {
        self.remaining.remove(&partition);
        if self.remaining.is_empty() {
            self.send_all(Some(SnapshotStop::Complete))
        } else {
            self.go_on()
        }
    }

    /// Tells the run something, and is told what to do.
    pub fn advance(&mut self, ctx: &CopyCtx<'_>, signal: Signal) -> (r: Result<CopyAction, Error>)
        requires
            old(self).total < u64::MAX,
        ensures
            match (r, copy_step(*ctx, signal, old(self).progress())) {
                (Ok(action), Ok(outcome)) => {
                    &&& final(self).progress() == outcome.after
                    &&& copies(action.send@) == outcome.sent
                    &&& action.stop == outcome.stop
                },
                (Err(e), Err(text)) => {
                    &&& e@ == text
                    &&& *final(self) == *old(self)
                },
                _ => false,
            },
    {
        match signal {
            Signal::Item(Item::Message(message)) => {
                let partition: i32 = message.partition;
                let offset: i64 = message.offset;
                if is_at_high(ctx.watermarks, partition, offset) {
                    return Ok(self.finish_partition(partition));
                }
                let ghost copied = copied_of(message);
                let pending = PendingMessage {
                    payload: message.payload,
                    key: message.key,
                    headers: message.headers,
                };
                let ghost before = self.batch@;
                self.batch.push(pending);
                proof {
                    assert(copies(self.batch@) =~= copies(before).push(copied));
                }
                self.total += 1;
                if does_reach_high(ctx.watermarks, partition, offset) {
                    self.remaining.remove(&partition);
                }
                if self.remaining.is_empty() || self.total >= ctx.limit {
                    return Ok(self.send_all(Some(SnapshotStop::Complete)));
                }
                if self.batch.len() >= ctx.batch_size {
                    return Ok(self.send_all(None));
                }
                Ok(self.go_on())
            },
            Signal::Item(Item::PartitionEof(partition)) => Ok(self.finish_partition(partition)),
            Signal::Item(Item::Failed(text)) => Err(Error::new(text)),
            Signal::Item(Item::Ended) => Ok(self.send_all(Some(SnapshotStop::Complete))),
            Signal::Pending => Ok(self.go_on()),
            Signal::Timeout => Ok(self.send_all(Some(SnapshotStop::Timeout))),
            Signal::Sigint => Ok(self.send_all(Some(SnapshotStop::Sigint))),
            Signal::Sigterm => Ok(self.send_all(Some(SnapshotStop::Sigterm))),
        }
    }
}

/// The report of a run.
pub fn report(total: u64) -> (r: String)
    ensures
        r@ == decimal(total as int) + " messages copied"@,
{
    let mut text = decimal_u64(total);
    text.append(" messages copied");
    text
}

/// What a run comes to over some signals. Once it has ended, it is told nothing more.
pub open spec fn copy_all(ctx: CopyCtx<'_>, signals: Seq<Signal>, start: CopyProgress) -> Result<
    CopyOutcome,
    Seq<char>,
>
    decreases signals.len(),
{
    if signals.len() == 0 {
        Ok(goes_on(start))
    } else {
        match copy_all(ctx, signals.drop_last(), start) {
            Err(e) => Err(e),
            Ok(so_far) => if so_far.stop is Some {
                Ok(so_far)
            } else {
                match copy_step(ctx, signals.last(), so_far.after) {
                    Err(e) => Err(e),
                    Ok(next) => Ok(
                        CopyOutcome {
                            after: next.after,
                            sent: so_far.sent + next.sent,
                            stop: next.stop,
                        },
                    ),
                }
            },
        }
    }
}

/// The records that a run takes: those below the high watermarks, as long as it has not ended.
pub open spec fn taken(ctx: CopyCtx<'_>, signals: Seq<Signal>, start: CopyProgress) -> Seq<Copied>
    decreases signals.len(),
{
    if signals.len() == 0 {
        Seq::empty()
    } else {
        let before = taken(ctx, signals.drop_last(), start);
        match (copy_all(ctx, signals.drop_last(), start), signals.last()) {
            (Ok(so_far), Signal::Item(Item::Message(message))) => if so_far.stop is None && !at_high(
                ctx.watermarks@,
                message.partition,
                message.offset,
            ) {
                before.push(copied_of(message))
            } else {
                before
            },
            _ => before,
        }
    }
}

/// Records are copied once each, unchanged and in order: those sent, with those that wait, are
/// those that waited at the start, followed by those taken; a run that has ended has sent all; and
/// the count told is the number of records taken.
pub proof fn law_copies_once_in_order(ctx: CopyCtx<'_>, signals: Seq<Signal>, start: CopyProgress)
    requires
        copy_all(ctx, signals, start) is Ok,
    ensures
        ({
            let end = copy_all(ctx, signals, start)->Ok_0;
            &&& end.sent + end.after.pending == start.pending + taken(ctx, signals, start)
            &&& end.stop is Some ==> end.after.pending == Seq::<Copied>::empty()
            &&& end.after.total == start.total + taken(ctx, signals, start).len()
        }),
    decreases signals.len(),
{
    if signals.len() == 0 {
        assert(Seq::<Copied>::empty() + start.pending =~= start.pending + Seq::<Copied>::empty());
    } else {
        let earlier = signals.drop_last();
        law_copies_once_in_order(ctx, earlier, start);
        let so_far = copy_all(ctx, earlier, start)->Ok_0;
        let end = copy_all(ctx, signals, start)->Ok_0;
        if so_far.stop is None {
            let next = copy_step(ctx, signals.last(), so_far.after)->Ok_0;
            let added = match signals.last() {
                Signal::Item(Item::Message(message)) => if at_high(
                    ctx.watermarks@,
                    message.partition,
                    message.offset,
                ) {
                    Seq::<Copied>::empty()
                } else {
                    seq![copied_of(message)]
                },
                _ => Seq::<Copied>::empty(),
            };
            assert(next.sent + next.after.pending =~= so_far.after.pending + added);
            assert(taken(ctx, signals, start) =~= taken(ctx, earlier, start) + added);
            assert(end.sent + end.after.pending =~= so_far.sent + (next.sent
                + next.after.pending));
            assert(so_far.sent + (so_far.after.pending + added) =~= (so_far.sent
                + so_far.after.pending) + added);
            assert((start.pending + taken(ctx, earlier, start)) + added =~= start.pending + taken(
                ctx,
                signals,
                start,
            ));
        }
    }
}

/// No more records are copied than asked for.
pub proof fn law_count_bounds_copies(ctx: CopyCtx<'_>, signals: Seq<Signal>, start: CopyProgress)
    requires
        ctx.limit > 0,
        start.total == 0,
        copy_all(ctx, signals, start) is Ok,
    ensures
        copy_all(ctx, signals, start)->Ok_0.after.total <= ctx.limit,
        copy_all(ctx, signals, start)->Ok_0.stop is None ==> copy_all(
            ctx,
            signals,
            start,
        )->Ok_0.after.total < ctx.limit,
    decreases signals.len(),
{
    if signals.len() > 0 {
        law_count_bounds_copies(ctx, signals.drop_last(), start);
    }
}

/// Messages that are sent together are no more than a full batch.
pub proof fn law_batch_size_bounds_sends(ctx: CopyCtx<'_>, signal: Signal, before: CopyProgress)
    requires
        copy_step(ctx, signal, before) is Ok,
        before.pending.len() < ctx.batch_size || before.pending.len() == 0,
    ensures
        ({
            let outcome = copy_step(ctx, signal, before)->Ok_0;
            &&& outcome.sent.len() <= ctx.batch_size || outcome.sent.len() <= 1
            &&& outcome.after.pending.len() < ctx.batch_size || outcome.after.pending.len() == 0
        }),
{
}

/// A copy keeps what a record holds: payload, key and headers, each absent where the record has
/// none, and empty where the record's is empty; a header keeps its name and its own value or lack
/// of one. What is sent for it goes to the destination, with no partition asked for.
pub proof fn law_copies_are_the_record(message: KafkaMessage, dest: Seq<char>, all: Seq<Copied>, i: int)
    requires
        0 <= i < all.len(),
    ensures
        ({
            let copy = copied_of(message);
            &&& message.payload matches Some(bytes) ==> copy.payload == Some(bytes@)
            &&& message.payload is None ==> copy.payload is None
            &&& message.key matches Some(bytes) ==> copy.key == Some(bytes@)
            &&& message.key is None ==> copy.key is None
            &&& message.headers is None ==> copy.headers is None
            &&& message.headers matches Some(headers) ==> copy.headers matches Some(list)
                && list.len() == headers@.len() && forall|k: int|
                0 <= k < headers@.len() ==> (#[trigger] list[k]).0 == headers@[k].0@
                    && match headers@[k].1 {
                    Some(bytes) => list[k].1 == Some(bytes@),
                    None => list[k].1 is None,
                }
        }),
        outgoing(dest, all).len() == all.len(),
        outgoing(dest, all)[i].topic == dest,
        outgoing(dest, all)[i].payload == all[i].payload,
        outgoing(dest, all)[i].key == all[i].key,
        outgoing(dest, all)[i].headers == all[i].headers,
        outgoing(dest, all)[i].partition is None,
{
}

/// A partition leaves what remains just on its own end or on a record of it that lies no more than
/// one below its high watermark, or further on. A copy ends as complete just where the stream has
/// ended, or where an item of it leaves nothing remaining or takes the record that reaches the
/// limit; else it ends only as it is told to.
pub proof fn law_copy_ends_when_all_is_read(ctx: CopyCtx<'_>, signal: Signal, before: CopyProgress)
    requires
        copy_step(ctx, signal, before) is Ok,
    ensures
        ({
            let outcome = copy_step(ctx, signal, before)->Ok_0;
            let watermarks = ctx.watermarks@;
            match signal {
                Signal::Item(Item::Message(message)) => {
                    let known = watermarks.contains_key(message.partition);
                    let high = watermarks[message.partition].1;
                    &&& outcome.after.remaining == if known && message.offset >= high - 1 {
                        before.remaining.remove(message.partition)
                    } else {
                        before.remaining
                    }
                    &&& outcome.stop is None || outcome.stop == Some(SnapshotStop::Complete)
                    &&& outcome.stop is Some <==> outcome.after.remaining.is_empty() || (
                    outcome.after.total >= ctx.limit && !(known && message.offset >= high))
                },
                Signal::Item(Item::PartitionEof(partition)) => {
                    &&& outcome.after.remaining == before.remaining.remove(partition)
                    &&& outcome.stop is None || outcome.stop == Some(SnapshotStop::Complete)
                    &&& outcome.stop is Some <==> outcome.after.remaining.is_empty()
                },
                Signal::Item(_) => outcome.after.remaining == before.remaining && outcome.stop
                    == Some(SnapshotStop::Complete),
                Signal::Pending => outcome.after.remaining == before.remaining && outcome.stop
                    is None,
                Signal::Timeout => outcome.after.remaining == before.remaining && outcome.stop
                    == Some(SnapshotStop::Timeout),
                Signal::Sigint => outcome.after.remaining == before.remaining && outcome.stop
                    == Some(SnapshotStop::Sigint),
                Signal::Sigterm => outcome.after.remaining == before.remaining && outcome.stop
                    == Some(SnapshotStop::Sigterm),
            }
        }),
{
}

/// A record is taken, and counted, just where it lies below the high watermark of its partition,
/// or none is known for it; nothing else is. Nothing that waits is lost or moved: what is sent,
/// with what still waits, is what waited and the record taken behind it. All is sent when the run
/// ends and when the batch is full, and nothing before.
pub proof fn law_copy_takes_records_below_high(
    ctx: CopyCtx<'_>,
    signal: Signal,
    before: CopyProgress,
)
    requires
        copy_step(ctx, signal, before) is Ok,
    ensures
        ({
            let outcome = copy_step(ctx, signal, before)->Ok_0;
            let all = outcome.sent + outcome.after.pending;
            let taken = signal matches Signal::Item(Item::Message(message)) && !(
            ctx.watermarks@.contains_key(message.partition) && message.offset
                >= ctx.watermarks@[message.partition].1);
            &&& taken ==> outcome.after.total == before.total + 1 && all == before.pending.push(
                copied_of(signal->Item_0->Message_0),
            )
            &&& !taken ==> outcome.after.total == before.total && all == before.pending
            &&& outcome.stop is Some ==> outcome.after.pending.len() == 0
            &&& outcome.stop is None && taken && before.pending.len() + 1 >= ctx.batch_size
                ==> outcome.after.pending.len() == 0
            &&& outcome.stop is None && !(taken && before.pending.len() + 1 >= ctx.batch_size)
                ==> outcome.sent.len() == 0
        }),
{
    let outcome = copy_step(ctx, signal, before)->Ok_0;
    let all = outcome.sent + outcome.after.pending;
    if signal is Item && signal->Item_0 is Message {
        let message = signal->Item_0->Message_0;
        assert(all =~= before.pending || all =~= before.pending.push(copied_of(message)));
    } else {
        assert(all =~= before.pending);
    }
}

/// A copy fails just where the stream does, with the stream's message.
pub proof fn law_copy_fails_with_the_stream(ctx: CopyCtx<'_>, signal: Signal, before: CopyProgress)
    ensures
        match signal {
            Signal::Item(Item::Failed(text)) => copy_step(ctx, signal, before) == Err::<
                CopyOutcome,
                Seq<char>,
            >(text@),
            _ => copy_step(ctx, signal, before) is Ok,
        },
{
}

proof fn lemma_copy_partition_seen(
    ctx: CopyCtx<'_>,
    signals: Seq<Signal>,
    start: CopyProgress,
    partition: i32,
)
    requires
        copy_all(ctx, signals, start) is Ok,
        start.remaining.contains(partition),
        !copy_all(ctx, signals, start)->Ok_0.after.remaining.contains(partition),
    ensures
        exists|i: int|
            0 <= i < signals.len() && (#[trigger] signals[i] matches Signal::Item(item)
                && shows_end(ctx.watermarks@, item, partition)),
    decreases signals.len(),
{
    if signals.len() > 0 {
        let earlier = signals.drop_last();
        let so_far = copy_all(ctx, earlier, start)->Ok_0;
        if !so_far.after.remaining.contains(partition) {
            lemma_copy_partition_seen(ctx, earlier, start, partition);
            let i = choose|i: int|
                0 <= i < earlier.len() && (#[trigger] earlier[i] matches Signal::Item(item)
                    && shows_end(ctx.watermarks@, item, partition));
            assert(signals[i] == earlier[i]);
        } else {
            law_copy_ends_when_all_is_read(ctx, signals.last(), so_far.after);
            assert(signals[signals.len() - 1] == signals.last());
        }
    }
}

/// A copy that is complete has read all: unless the stream ended or the limit was reached, every
/// partition that remained at the start was read to its high watermark.
pub proof fn law_complete_copy_has_read_all(
    ctx: CopyCtx<'_>,
    signals: Seq<Signal>,
    start: CopyProgress,
    partition: i32,
)
    requires
        copy_all(ctx, signals, start) matches Ok(end) && end.stop == Some(SnapshotStop::Complete)
            && end.after.total < ctx.limit,
        forall|i: int|
            0 <= i < signals.len() ==> !(#[trigger] signals[i] matches Signal::Item(Item::Ended)),
        start.remaining.contains(partition),
    ensures
        exists|i: int|
            0 <= i < signals.len() && (#[trigger] signals[i] matches Signal::Item(item)
                && shows_end(ctx.watermarks@, item, partition)),
{
    lemma_copy_complete(ctx, signals, start);
    lemma_copy_partition_seen(ctx, signals, start, partition);
}

proof fn lemma_copy_complete(ctx: CopyCtx<'_>, signals: Seq<Signal>, start: CopyProgress)
    requires
        copy_all(ctx, signals, start) matches Ok(end) && end.stop == Some(SnapshotStop::Complete)
            && end.after.total < ctx.limit,
        forall|i: int|
            0 <= i < signals.len() ==> !(#[trigger] signals[i] matches Signal::Item(Item::Ended)),
    ensures
        copy_all(ctx, signals, start)->Ok_0.after.remaining.is_empty(),
    decreases signals.len(),
{
    if signals.len() > 0 {
        let earlier = signals.drop_last();
        let so_far = copy_all(ctx, earlier, start)->Ok_0;
        assert forall|i: int| 0 <= i < earlier.len() implies !(
        #[trigger] earlier[i] matches Signal::Item(Item::Ended)) by {
            assert(signals[i] == earlier[i]);
        }
        if so_far.stop is Some {
            lemma_copy_complete(ctx, earlier, start);
        } else {
            assert(!(signals[signals.len() - 1] matches Signal::Item(Item::Ended)));
            law_copy_ends_when_all_is_read(ctx, signals.last(), so_far.after);
        }
    }
}

/// What is told of a waiting message is what it holds.
pub proof fn law_waiting_contents_are_told(message: PendingMessage)
    ensures
        message.payload matches Some(bytes) ==> message@.payload == Some(bytes@),
        message.payload is None ==> message@.payload is None,
        message.key matches Some(bytes) ==> message@.key == Some(bytes@),
        message.key is None ==> message@.key is None,
        message.headers is None <==> message@.headers is None,
        message.headers matches Some(headers) ==> message@.headers == Some(full_headers(headers@)),
{
}

} // verus!
