//! Dumping a snapshot of a topic to a file.

use std::collections::{BTreeMap, HashSet};

use vstd::prelude::*;
use vstd::string::*;

use crate::commands::{
    at_high, does_reach_high, is_at_high, reaches_high, record_of, remaining_partitions, shows_end,
    unread, Item, KafkaMessage, Signal, SnapshotStop,
};
use crate::error::Error;
use crate::formatter::{bytes_view, header_fields, header_object, law_headers_by_name};
use crate::json::{JsonObject, JsonTree};
use crate::offsets::Offset;
use crate::text::{decimal, decimal_i64, decimal_u64, lossy, lossy_text};

verus! {

/// What the `topic:dump` command is asked.
#[derive(Debug)]
pub struct Args {
    /// topic name
    pub topic: String,
    /// the file that is written
    pub output: String,
    /// consumer group name
    pub group: Option<String>,
    /// where reading starts: a timestamp (ms), RFC 3339, or 0 for the beginning
    pub from: String,
    /// maximum number of messages to dump
    pub count: Option<u64>,
}

/// A line of a dump.
#[derive(Debug)]
pub struct DumpedMessage {
    pub partition: i32,
    pub offset: String,
    pub timestamp: String,
    pub headers: JsonObject,
    pub key: Option<String>,
    pub value: Option<String>,
}

/// What a line of a dump says.
#[verifier::ext_equal]
pub struct Dumped {
    pub partition: i32,
    pub offset: Seq<char>,
    pub timestamp: Seq<char>,
    pub headers: Map<Seq<char>, JsonTree>,
    pub key: Option<Seq<char>>,
    pub value: Option<Seq<char>>,
}

/// An optional text.
pub open spec fn text_view(text: Option<String>) -> Option<Seq<char>> {
    match text {
        Some(t) => Some(t@),
        None => None,
    }
}

impl View for DumpedMessage {
    type V = Dumped;

    open spec fn view(&self) -> Dumped {
        Dumped {
            partition: self.partition,
            offset: self.offset@,
            timestamp: self.timestamp@,
            headers: self.headers@,
            key: text_view(self.key),
            value: text_view(self.value),
        }
    }
}

/// The text of optional bytes; none stays none.
pub open spec fn lossy_option(bytes: Option<Seq<u8>>) -> Option<Seq<char>> {
    match bytes {
        Some(b) => Some(lossy(b)),
        None => None,
    }
}

/// The line of a record: offset and time in decimal, key, value and headers as texts.
pub open spec fn dumped_of(message: KafkaMessage) -> Dumped {
    Dumped {
        partition: message.partition,
        offset: decimal(message.offset as int),
        timestamp: decimal(message.millis() as int),
        headers: header_fields(record_of(message).headers),
        key: lossy_option(bytes_view(message.key)),
        value: lossy_option(bytes_view(message.payload)),
    }
}

fn option_text(bytes: &Option<Vec<u8>>) -> (r: Option<String>)
    ensures
        text_view(r) == lossy_option(bytes_view(*bytes)),
{
    match bytes {
        Some(b) => Some(lossy_text(b.as_slice())),
        None => None,
    }
}

/// The line of a record.
pub fn dump_message(message: &KafkaMessage) -> (r: DumpedMessage)
    ensures
        r@ == dumped_of(*message),
{
    let headers = message.plain_headers();
    let millis: i64 = match message.timestamp {
        Some(millis) => millis,
        None => 0,
    };
    DumpedMessage {
        partition: message.partition,
        offset: decimal_i64(message.offset),
        timestamp: decimal_i64(millis),
        headers: header_object(headers.as_slice()),
        key: option_text(&message.key),
        value: option_text(&message.payload),
    }
}

/// What holds throughout a run.
pub struct DumpCtx<'a> {
    pub watermarks: &'a BTreeMap<i32, (i64, i64)>,
    pub limit: u64,
}

/// How far a run has come: the partitions in which there is something to read, and the number of
/// lines written.
#[verifier::ext_equal]
pub struct DumpProgress {
    pub remaining: Set<i32>,
    pub total: int,
}

/// What a run comes to: how far it is, the line it writes, and whether it has ended.
#[verifier::ext_equal]
pub struct DumpOutcome {
    pub after: DumpProgress,
    pub line: Option<Dumped>,
    pub stop: Option<SnapshotStop>,
}

/// A partition has nothing more to read; the run is complete if none has.
pub open spec fn partition_done(before: DumpProgress, partition: i32) -> DumpOutcome {
    let remaining = before.remaining.remove(partition);
    DumpOutcome {
        after: DumpProgress { remaining, ..before },
        line: None,
        stop: if remaining.is_empty() {
            Some(SnapshotStop::Complete)
        } else {
            None
        },
    }
}

/// What a message comes to: a record below the high watermark is written.
pub open spec fn dump_step_message(
    ctx: DumpCtx<'_>,
    message: KafkaMessage,
    before: DumpProgress,
) -> DumpOutcome {
    let partition = message.partition;
    if at_high(ctx.watermarks@, partition, message.offset) {
        partition_done(before, partition)
    } else {
        let after = DumpProgress {
            remaining: if reaches_high(ctx.watermarks@, partition, message.offset) {
                before.remaining.remove(partition)
            } else {
                before.remaining
            },
            total: before.total + 1,
        };
        DumpOutcome {
            after,
            line: Some(dumped_of(message)),
            stop: if after.remaining.is_empty() || after.total >= ctx.limit {
                Some(SnapshotStop::Complete)
            } else {
                None
            },
        }
    }
}

/// What a run comes to when it is told something.
pub open spec fn dump_step(ctx: DumpCtx<'_>, signal: Signal, before: DumpProgress) -> Result<
    DumpOutcome,
    Seq<char>,
> {
    match signal {
        Signal::Item(Item::Message(message)) => Ok(dump_step_message(ctx, message, before)),
        Signal::Item(Item::PartitionEof(partition)) => Ok(partition_done(before, partition)),
        Signal::Item(Item::Failed(text)) => Err(text@),
        Signal::Item(Item::Ended) => Ok(
            DumpOutcome { after: before, line: None, stop: Some(SnapshotStop::Complete) },
        ),
        Signal::Pending => Ok(DumpOutcome { after: before, line: None, stop: None }),
        Signal::Timeout => Ok(
            DumpOutcome { after: before, line: None, stop: Some(SnapshotStop::Timeout) },
        ),
        Signal::Sigint => Ok(
            DumpOutcome { after: before, line: None, stop: Some(SnapshotStop::Sigint) },
        ),
        Signal::Sigterm => Ok(
            DumpOutcome { after: before, line: None, stop: Some(SnapshotStop::Sigterm) },
        ),
    }
}

/// What is to be done: a line to write, and how the run has ended, if it has.
#[derive(Debug)]
pub struct DumpAction {
    pub line: Option<DumpedMessage>,
    pub stop: Option<SnapshotStop>,
}

/// What an optional line says.
pub open spec fn line_view(line: Option<DumpedMessage>) -> Option<Dumped> {
    match line {
        Some(message) => Some(message@),
        None => None,
    }
}

/// A run of the `topic:dump` command.
#[derive(Debug)]
pub struct DumpRun {
    pub remaining: HashSet<i32>,
    pub total: u64,
}

impl DumpRun {
    /// How far the run has come.
    pub open spec fn progress(self) -> DumpProgress {
        DumpProgress { remaining: self.remaining@, total: self.total as int }
    }

    /// A run that begins and reads what remains of the given partitions.
    pub fn new(remaining: HashSet<i32>) -> (r: DumpRun)
        ensures
            r.progress() == (DumpProgress { remaining: remaining@, total: 0 }),
    {
        DumpRun { remaining, total: 0 }
    }

    /// The run that reads what remains of some assignments, unless nothing does.
    pub fn begin(
        assignments: &Vec<(i32, Offset)>,
        watermarks: &BTreeMap<i32, (i64, i64)>,
    ) -> (r: Option<DumpRun>)
        ensures
            match r {
                Some(run) => {
                    &&& !unread(assignments@, watermarks@).is_empty()
                    &&& run.progress() == (DumpProgress {
                        remaining: unread(assignments@, watermarks@),
                        total: 0,
                    })
                },
                None => unread(assignments@, watermarks@).is_empty(),
            },
    {
        let remaining = remaining_partitions(assignments, watermarks);
        if remaining.is_empty() {
            None
        } else {
            Some(DumpRun::new(remaining))
        }
    }

    fn finish_partition(&mut self, partition: i32) -> (r: DumpAction)
        ensures
            ({
                let outcome = partition_done(old(self).progress(), partition);
                &&& final(self).progress() == outcome.after
                &&& line_view(r.line) == outcome.line
                &&& r.stop == outcome.stop
            }),
    {
        self.remaining.remove(&partition);
        DumpAction {
            line: None,
            stop: if self.remaining.is_empty() {
                Some(SnapshotStop::Complete)
            } else {
                None
            },
        }
    }

    /// Tells the run something, and is told what to do.
    pub fn advance(&mut self, ctx: &DumpCtx<'_>, signal: &Signal) -> (r: Result<DumpAction, Error>)
        requires
            old(self).total < u64::MAX,
        ensures
            match (r, dump_step(*ctx, *signal, old(self).progress())) {
                (Ok(action), Ok(outcome)) => {
                    &&& final(self).progress() == outcome.after
                    &&& line_view(action.line) == outcome.line
                    &&& action.stop == outcome.stop
                },
                (Err(e), Err(text)) => {
                    &&& e@ == text
                    &&& *final(self) == *old(self)
                },
                _ => false,
            },
    {
        match signal {
            Signal::Item(Item::Message(message)) => {
                let partition: i32 = message.partition;
                let offset: i64 = message.offset;
                if is_at_high(ctx.watermarks, partition, offset) {
                    return Ok(self.finish_partition(partition));
                }
                let line = dump_message(message);
                self.total += 1;
                if does_reach_high(ctx.watermarks, partition, offset) {
                    self.remaining.remove(&partition);
                }
                let stop = if self.remaining.is_empty() || self.total >= ctx.limit {
                    Some(SnapshotStop::Complete)
                } else {
                    None
                };
                Ok(DumpAction { line: Some(line), stop })
            },
            Signal::Item(Item::PartitionEof(partition)) => Ok(self.finish_partition(*partition)),
            Signal::Item(Item::Failed(text)) => Err(Error::new(text.clone())),
            Signal::Item(Item::Ended) => Ok(
                DumpAction { line: None, stop: Some(SnapshotStop::Complete) },
            ),
            Signal::Pending => Ok(DumpAction { line: None, stop: None }),
            Signal::Timeout => Ok(DumpAction { line: None, stop: Some(SnapshotStop::Timeout) }),
            Signal::Sigint => Ok(DumpAction { line: None, stop: Some(SnapshotStop::Sigint) }),
            Signal::Sigterm => Ok(DumpAction { line: None, stop: Some(SnapshotStop::Sigterm) }),
        }
    }
}

/// The report of a run.
pub fn report(total: u64, output: &str) -> (r: String)
    ensures
        r@ == decimal(total as int) + " messages dumped to "@ + output@,
{
    let mut text = decimal_u64(total);
    text.append(" messages dumped to ");
    text.append(output);
    text
}

/// What a whole run comes to: how far it is, the lines it has written, and whether it has ended.
#[verifier::ext_equal]
pub struct Dump {
    pub after: DumpProgress,
    pub lines: Seq<Dumped>,
    pub stop: Option<SnapshotStop>,
}

/// What a run comes to over some signals. Once it has ended, it is told nothing more.
pub open spec fn dump_all(ctx: DumpCtx<'_>, signals: Seq<Signal>, start: DumpProgress) -> Result<
    Dump,
    Seq<char>,
>
    decreases signals.len(),
{
    if signals.len() == 0 {
        Ok(Dump { after: start, lines: Seq::empty(), stop: None })
    } else {
        match dump_all(ctx, signals.drop_last(), start) {
            Err(e) => Err(e),
            Ok(so_far) => if so_far.stop is Some {
                Ok(so_far)
            } else {
                match dump_step(ctx, signals.last(), so_far.after) {
                    Err(e) => Err(e),
                    Ok(next) => Ok(
                        Dump {
                            after: next.after,
                            lines: match next.line {
                                Some(line) => so_far.lines.push(line),
                                None => so_far.lines,
                            },
                            stop: next.stop,
                        },
                    ),
                }
            },
        }
    }
}

/// The records of some signals that lie below the high watermarks, in their order.
pub open spec fn below_high(watermarks: Map<i32, (i64, i64)>, signals: Seq<Signal>) -> Seq<Dumped>
    decreases signals.len(),
{
    if signals.len() == 0 {
        Seq::empty()
    } else {
        let before = below_high(watermarks, signals.drop_last());
        match signals.last() {
            Signal::Item(Item::Message(message)) => if at_high(
                watermarks,
                message.partition,
                message.offset,
            ) {
                before
            } else {
                before.push(dumped_of(message))
            },
            _ => before,
        }
    }
}

/// A dump holds the records below the high watermarks, in the order in which they came, from the
/// first one on; all of them as long as it has not ended. The count told is the number of lines,
/// and no more lines are written than asked for.
pub proof fn law_dumps_once_in_order(ctx: DumpCtx<'_>, signals: Seq<Signal>, start: DumpProgress)
    requires
        ctx.limit > 0,
        start.total == 0,
        dump_all(ctx, signals, start) is Ok,
    ensures
        ({
            let end = dump_all(ctx, signals, start)->Ok_0;
            let records = below_high(ctx.watermarks@, signals);
            &&& end.lines.len() <= records.len()
            &&& end.lines == records.take(end.lines.len() as int)
            &&& end.stop is None ==> end.lines == records && end.after.total < ctx.limit
            &&& end.after.total == end.lines.len()
            &&& end.after.total <= ctx.limit
        }),
    decreases signals.len(),
{
    if signals.len() == 0 {
        let records = below_high(ctx.watermarks@, signals);
        assert(records.take(0) =~= records);
    } else {
        let earlier = signals.drop_last();
        law_dumps_once_in_order(ctx, earlier, start);
        let so_far = dump_all(ctx, earlier, start)->Ok_0;
        let end = dump_all(ctx, signals, start)->Ok_0;
        let records = below_high(ctx.watermarks@, signals);
        let before = below_high(ctx.watermarks@, earlier);
        assert(before.len() <= records.len() && records.take(before.len() as int) =~= before);
        if so_far.stop is Some {
            assert(records.take(so_far.lines.len() as int) =~= before.take(
                so_far.lines.len() as int,
            ));
        } else {
            assert(end.lines =~= records);
            assert(records.take(records.len() as int) =~= records);
        }
    }
}

/// A line of a dump tells its record: partition, offset and time as they are, the time zero where
/// the record has none; key and value as texts, absent where the record has none.
pub proof fn law_dump_lines_tell_the_record(message: KafkaMessage)
    ensures
        ({
            let line = dumped_of(message);
            &&& line.partition == message.partition
            &&& line.offset == decimal(message.offset as int)
            &&& message.timestamp matches Some(time) ==> line.timestamp == decimal(time as int)
            &&& message.timestamp is None ==> line.timestamp == decimal(0)
            &&& message.key matches Some(bytes) ==> line.key == Some(lossy(bytes@))
            &&& message.key is None ==> line.key is None
            &&& message.payload matches Some(bytes) ==> line.value == Some(lossy(bytes@))
            &&& message.payload is None ==> line.value is None
            &&& message.headers is None ==> line.headers == Map::<Seq<char>, JsonTree>::empty()
        }),
{
    if message.headers is None {
        let none = Seq::<(Seq<char>, Seq<u8>)>::empty();
        assert(Seq::new(none.len(), |i: int| (none[i].0, JsonTree::Str(lossy(none[i].1))))
            =~= Seq::empty());
        assert(dumped_of(message).headers =~= Map::<Seq<char>, JsonTree>::empty());
    }
}

/// The headers of a dumped record are those of the record: a name stands there just where a header
/// has it, with the text of the last header of that name; a header without a value is empty.
pub proof fn law_dump_headers_tell_the_record(
    message: KafkaMessage,
    headers: Vec<(String, Option<Vec<u8>>)>,
    name: Seq<char>,
    last: int,
)
    requires
        message.headers == Some(headers),
        -1 <= last < headers@.len(),
        last >= 0 ==> headers@[last].0@ == name,
        forall|j: int| last < j < headers@.len() ==> (#[trigger] headers@[j]).0@ != name,
    ensures
        last < 0 ==> !dumped_of(message).headers.contains_key(name),
        last >= 0 ==> dumped_of(message).headers.contains_key(name) && dumped_of(
            message,
        ).headers[name] == JsonTree::Str(
            match headers@[last].1 {
                Some(bytes) => lossy(bytes@),
                None => lossy(Seq::empty()),
            },
        ),
{
    let plain = record_of(message).headers;
    assert forall|j: int| last < j < plain.len() implies (#[trigger] plain[j]).0 != name by {
        assert(headers@[j].0@ != name);
    }
    law_headers_by_name(plain, name, last);
}

/// A partition leaves what remains just on its own end or on a record of it that lies no more than
/// one below its high watermark, or further on. A dump ends as complete just where the stream has
/// ended, or where an item of it leaves nothing remaining or gives the line that reaches the limit;
/// else it ends only as it is told to.
pub proof fn law_dump_ends_when_all_is_read(ctx: DumpCtx<'_>, signal: Signal, before: DumpProgress)
    requires
        dump_step(ctx, signal, before) is Ok,
    ensures
        ({
            let outcome = dump_step(ctx, signal, before)->Ok_0;
            let watermarks = ctx.watermarks@;
            match signal {
                Signal::Item(Item::Message(message)) => {
                    let known = watermarks.contains_key(message.partition);
                    let high = watermarks[message.partition].1;
                    &&& outcome.after.remaining == if known && message.offset >= high - 1 {
                        before.remaining.remove(message.partition)
                    } else {
                        before.remaining
                    }
                    &&& outcome.stop is None || outcome.stop == Some(SnapshotStop::Complete)
                    &&& outcome.stop is Some <==> outcome.after.remaining.is_empty() || (
                    outcome.after.total >= ctx.limit && !(known && message.offset >= high))
                },
                Signal::Item(Item::PartitionEof(partition)) => {
                    &&& outcome.after.remaining == before.remaining.remove(partition)
                    &&& outcome.stop is None || outcome.stop == Some(SnapshotStop::Complete)
                    &&& outcome.stop is Some <==> outcome.after.remaining.is_empty()
                },
                Signal::Item(_) => outcome.after.remaining == before.remaining && outcome.stop
                    == Some(SnapshotStop::Complete),
                Signal::Pending => outcome.after.remaining == before.remaining && outcome.stop
                    is None,
                Signal::Timeout => outcome.after.remaining == before.remaining && outcome.stop
                    == Some(SnapshotStop::Timeout),
                Signal::Sigint => outcome.after.remaining == before.remaining && outcome.stop
                    == Some(SnapshotStop::Sigint),
                Signal::Sigterm => outcome.after.remaining == before.remaining && outcome.stop
                    == Some(SnapshotStop::Sigterm),
            }
        }),
{
}

/// A record is written, and counted, just where it lies below the high watermark of its partition,
/// or none is known for it; nothing else is.
pub proof fn law_dump_writes_records_below_high(
    ctx: DumpCtx<'_>,
    signal: Signal,
    before: DumpProgress,
)
    requires
        dump_step(ctx, signal, before) is Ok,
    ensures
        ({
            let outcome = dump_step(ctx, signal, before)->Ok_0;
            let written = signal matches Signal::Item(Item::Message(message)) && !(
            ctx.watermarks@.contains_key(message.partition) && message.offset
                >= ctx.watermarks@[message.partition].1);
            &&& written ==> outcome.after.total == before.total + 1 && outcome.line == Some(
                dumped_of(signal->Item_0->Message_0),
            )
            &&& !written ==> outcome.after.total == before.total && outcome.line is None
        }),
{
}

/// A dump fails just where the stream does, with the stream's message.
pub proof fn law_dump_fails_with_the_stream(ctx: DumpCtx<'_>, signal: Signal, before: DumpProgress)
    ensures
        match signal {
            Signal::Item(Item::Failed(text)) => dump_step(ctx, signal, before) == Err::<
                DumpOutcome,
                Seq<char>,
            >(text@),
            _ => dump_step(ctx, signal, before) is Ok,
        },
{
}

proof fn lemma_dump_partition_seen(
    ctx: DumpCtx<'_>,
    signals: Seq<Signal>,
    start: DumpProgress,
    partition: i32,
)
    requires
        dump_all(ctx, signals, start) is Ok,
        start.remaining.contains(partition),
        !dump_all(ctx, signals, start)->Ok_0.after.remaining.contains(partition),
    ensures
        exists|i: int|
            0 <= i < signals.len() && (#[trigger] signals[i] matches Signal::Item(item)
                && shows_end(ctx.watermarks@, item, partition)),
    decreases signals.len(),
{
    if signals.len() > 0 {
        let earlier = signals.drop_last();
        let so_far = dump_all(ctx, earlier, start)->Ok_0;
        if !so_far.after.remaining.contains(partition) {
            lemma_dump_partition_seen(ctx, earlier, start, partition);
            let i = choose|i: int|
                0 <= i < earlier.len() && (#[trigger] earlier[i] matches Signal::Item(item)
                    && shows_end(ctx.watermarks@, item, partition));
            assert(signals[i] == earlier[i]);
        } else {
            law_dump_ends_when_all_is_read(ctx, signals.last(), so_far.after);
            assert(signals[signals.len() - 1] == signals.last());
        }
    }
}

/// A dump that is complete has read all: unless the stream ended or the limit was reached, every
/// partition that remained at the start was read to its high watermark.
pub proof fn law_complete_dump_has_read_all(
    ctx: DumpCtx<'_>,
    signals: Seq<Signal>,
    start: DumpProgress,
    partition: i32,
)
    requires
        dump_all(ctx, signals, start) matches Ok(end) && end.stop == Some(SnapshotStop::Complete)
            && end.after.total < ctx.limit,
        forall|i: int|
            0 <= i < signals.len() ==> !(#[trigger] signals[i] matches Signal::Item(Item::Ended)),
        start.remaining.contains(partition),
    ensures
        exists|i: int|
            0 <= i < signals.len() && (#[trigger] signals[i] matches Signal::Item(item)
                && shows_end(ctx.watermarks@, item, partition)),
{
    lemma_dump_complete(ctx, signals, start);
    lemma_dump_partition_seen(ctx, signals, start, partition);
}

proof fn lemma_dump_complete(ctx: DumpCtx<'_>, signals: Seq<Signal>, start: DumpProgress)
    requires
        dump_all(ctx, signals, start) matches Ok(end) && end.stop == Some(SnapshotStop::Complete)
            && end.after.total < ctx.limit,
        forall|i: int|
            0 <= i < signals.len() ==> !(#[trigger] signals[i] matches Signal::Item(Item::Ended)),
    ensures
        dump_all(ctx, signals, start)->Ok_0.after.remaining.is_empty(),
    decreases signals.len(),
{
    if signals.len() > 0 {
        let earlier = signals.drop_last();
        let so_far = dump_all(ctx, earlier, start)->Ok_0;
        assert forall|i: int| 0 <= i < earlier.len() implies !(
        #[trigger] earlier[i] matches Signal::Item(Item::Ended)) by {
            assert(signals[i] == earlier[i]);
        }
        if so_far.stop is Some {
            lemma_dump_complete(ctx, earlier, start);
        } else {
            assert(!(signals[signals.len() - 1] matches Signal::Item(Item::Ended)));
            law_dump_ends_when_all_is_read(ctx, signals.last(), so_far.after);
        }
    }
}

/// What is told of a line is what it holds.
pub proof fn law_line_contents_are_told(line: DumpedMessage)
    ensures
        line@.partition == line.partition,
        line@.offset == line.offset@,
        line@.timestamp == line.timestamp@,
        line@.headers == line.headers@,
        line.key matches Some(text) ==> line@.key == Some(text@),
        line.key is None ==> line@.key is None,
        line.value matches Some(text) ==> line@.value == Some(text@),
        line.value is None ==> line@.value is None,
{
}

} // verus!
