//! Consuming a topic: records become lines, and lines are written in batches, one partition each.

use std::collections::{BTreeMap, HashSet};

use rdkafka::ClientConfig;
use vstd::prelude::*;
use vstd::string::*;
use vstd::utf8::encode_utf8;

use crate::client::{config_entries, set_entry};
use crate::commands::{
    at_high, does_reach_high, is_at_high, reaches_high, record_of, remaining_partitions, shows_end,
    start_from, start_named, unread, Item, KafkaMessage, Signal, SnapshotStop, StartFrom,
};
use crate::error::Error;
use crate::formatter::{
    bytes_view, decoded, encoded, header_fields, headers_view, law_encode_ignores_other_fields,
    law_json_decode_undoes_encode, law_raw_decode_undoes_encode, law_record_is_shown,
    lemma_record_fields_shown, Encoded, Formatter, Record, RecordView,
};
use crate::json::{
    is_line, json_parse, json_text, lemma_trees, survives, trees, Json, JsonObject, JsonTree,
};
use crate::offsets::Offset;
use crate::order::{ascending_ids, id_order, lemma_ascending_ids_list, lists, sorted_keys};
use crate::output::{jsonl, law_value_is_one_line, split_lines, write_jsonl};
use crate::text::{decimal, decimal_i64, lossy};
use crate::wasm_formatter::{plugin_decoded, DecodeReply, EncodeReply, KafkaRecord};

verus! {

/// What the `consume` command is asked.
#[derive(Debug)]
pub struct Args {
    /// topic name
    pub topic: String,
    /// consumer group name
    pub group: Option<String>,
    /// message value format: json, raw, or path to a .wasm component
    pub data_format: String,
    /// the file that is written instead of the standard output
    pub output: Option<String>,
    /// where reading starts: a timestamp (ms), RFC 3339, or 0 for the beginning
    pub from: Option<String>,
    /// maximum number of messages to consume
    pub count: Option<u64>,
    /// number of messages to skip before any is shown
    pub skip: u64,
    /// maximum messages per batch line
    pub batch_limit: usize,
    /// whether only the records that exist at the start are read
    pub snapshot: bool,
}

/// What holds throughout a run.
pub struct Ctx<'a> {
    pub topic: &'a str,
    pub snapshot: bool,
    pub skip: u64,
    pub limit: u64,
    pub batch_limit: usize,
    pub watermarks: &'a BTreeMap<i32, (i64, i64)>,
    pub format: &'a Formatter,
}

/// Whether a run goes on.
#[derive(Clone, Copy, Debug, PartialEq, Eq)]
pub enum Flow {
    Continue,
    Stop,
}

/// How many records stand between a record and the high watermark; never below zero.
pub open spec fn ahead_of(watermarks: Map<i32, (i64, i64)>, partition: i32, offset: i64) -> int {
    if watermarks.contains_key(partition) && watermarks[partition].1 > offset {
        watermarks[partition].1 - offset
    } else {
        0
    }
}

/// The line of a message whose fields have been decoded. Offset, timestamp and distance are those
/// of the record, whatever the decoder gave under these names.
pub open spec fn message_line(
    watermarks: Map<i32, (i64, i64)>,
    message: KafkaMessage,
    fields: Map<Seq<char>, JsonTree>,
) -> JsonTree {
    JsonTree::Object(
        fields.insert("offset"@, JsonTree::Str(decimal(message.offset as int))).insert(
            "timestamp"@,
            JsonTree::Str(decimal(message.millis() as int)),
        ).insert(
            "ahead"@,
            JsonTree::Int(ahead_of(watermarks, message.partition, message.offset)),
        ),
    )
}

/// The line of a message, or why it cannot be decoded.
pub open spec fn decoded_line(ctx: Ctx<'_>, message: KafkaMessage, reply: DecodeReply) -> Result<
    JsonTree,
    Seq<char>,
> {
    match decoded(*ctx.format, record_of(message), reply) {
        Ok(fields) => Ok(message_line(ctx.watermarks@, message, fields)),
        Err(e) => Err(e),
    }
}

/// A message as a formatter sees it.
fn record_view<'a>(
    ctx: &'a Ctx<'a>,
    message: &'a KafkaMessage,
    headers: &'a [(String, Vec<u8>)],
) -> (r: RecordView<'a>)
    requires
        headers_view(headers@) == record_of(*message).headers,
    ensures
        r.content() == record_of(*message),
        r.topic@ == ctx.topic@,
        r.partition == message.partition,
        r.timestamp == message.millis(),
{
    let view = RecordView {
        topic: ctx.topic,
        partition: message.partition,
        key: match &message.key {
            Some(key) => Some(key.as_slice()),
            None => None,
        },
        value: match &message.payload {
            Some(payload) => Some(payload.as_slice()),
            None => None,
        },
        headers,
        timestamp: match message.timestamp {
            Some(millis) => millis,
            None => 0,
        },
    };
    proof {
        assert(view.content() =~= record_of(*message));
    }
    view
}

/// What a component formatter is asked for a message; nothing where the format is built in.
pub fn decode_request(ctx: &Ctx<'_>, message: &KafkaMessage) -> (r: Option<KafkaRecord>)
    ensures
        match r {
            Some(request) => {
                &&& ctx.format is Wasm
                &&& request.topic@ == ctx.topic@
                &&& request.partition == message.partition
                &&& request.timestamp == message.millis()
                &&& record_of(*message) == (Record {
                    key: bytes_view(request.key),
                    value: bytes_view(request.value),
                    headers: headers_view(request.headers@),
                })
            },
            None => ctx.format !is Wasm,
        },
{
    match ctx.format {
        Formatter::Wasm(plugin) => {
            let headers = message.plain_headers();
            let view = record_view(ctx, message, headers.as_slice());
            Some(plugin.decode_request(&view))
        },
        _ => None,
    }
}

/// The line of a message.
pub fn decode_message(ctx: &Ctx<'_>, message: &KafkaMessage, reply: &DecodeReply) -> (r: Result<
    Json,
    Error,
>)
    requires
        ctx.format is Wasm ==> reply !is NotAsked,
    ensures
        match r {
            Ok(line) => decoded_line(*ctx, *message, *reply) == Ok::<JsonTree, Seq<char>>(line@),
            Err(e) => decoded_line(*ctx, *message, *reply) == Err::<JsonTree, Seq<char>>(e@),
        },
{
    let offset: i64 = message.offset;
    let high: i64 = match ctx.watermarks.get(&message.partition) {
        Some(bounds) => bounds.1,
        None => offset,
    };
    let ahead: u64 = if high > offset {
        (high as i128 - offset as i128) as u64
    } else {
        0
    };
    let headers = message.plain_headers();
    let view = record_view(ctx, message, headers.as_slice());
    let record = match ctx.format.decode(&view, reply) {
        Ok(record) => record,
        Err(e) => {
            return Err(e);
        },
    };
    let mut fields = record.fields;
    fields.insert("offset".to_owned(), Json::Str(decimal_i64(offset)));
    fields.insert("timestamp".to_owned(), Json::Str(decimal_i64(view.timestamp)));
    fields.insert("ahead".to_owned(), Json::Unsigned(ahead));
    Ok(Json::Object(fields))
}

/// Offset, timestamp and distance of a line are those of the record, whatever the decoder gave
/// under these names: the distance is that to the captured high watermark, never below zero, and
/// zero where none is known. Every other field is the decoder's.
pub proof fn law_host_fields_win(
    watermarks: Map<i32, (i64, i64)>,
    message: KafkaMessage,
    fields: Map<Seq<char>, JsonTree>,
    name: Seq<char>,
)
    ensures
        ({
            let line = message_line(watermarks, message, fields)->Object_0;
            &&& line.contains_key("offset"@)
            &&& line["offset"@] == JsonTree::Str(decimal(message.offset as int))
            &&& line.contains_key("timestamp"@)
            &&& line["timestamp"@] == JsonTree::Str(
                decimal(
                    match message.timestamp {
                        Some(time) => time as int,
                        None => 0,
                    },
                ),
            )
            &&& line.contains_key("ahead"@)
            &&& line["ahead"@] == JsonTree::Int(
                if watermarks.contains_key(message.partition) && message.offset
                    < watermarks[message.partition].1 {
                    watermarks[message.partition].1 - message.offset
                } else {
                    0
                },
            )
            &&& name != "offset"@ && name != "timestamp"@ && name != "ahead"@ ==> {
                &&& line.contains_key(name) <==> fields.contains_key(name)
                &&& line[name] == fields[name]
            }
        }),
{
    reveal_strlit("offset");
    reveal_strlit("timestamp");
    reveal_strlit("ahead");
    assert("offset"@.len() == 6 && "timestamp"@.len() == 9 && "ahead"@.len() == 5);
}

/// A line that was consumed in a built-in format can be produced again in that format: the record
/// that comes of it decodes to the same key, headers and value. A value is kept that is read back
/// from its text; in the raw format, one that is not null.
pub proof fn law_consumed_lines_can_be_produced(
    format: Formatter,
    record: Record,
    watermarks: Map<i32, (i64, i64)>,
    message: KafkaMessage,
    reply: DecodeReply,
    asked: EncodeReply,
    again: Encoded,
)
    requires
        format !is Wasm,
        decoded(format, record, reply) is Ok,
        ({
            let fields = decoded(format, record, reply)->Ok_0;
            let line = message_line(watermarks, message, fields);
            &&& encoded(format, line, asked) == Ok::<Encoded, Seq<char>>(again)
            &&& format is Json ==> survives(fields["value"@])
            &&& format is Raw ==> record.value is Some
        }),
    ensures
        decoded(
            format,
            Record { key: again.key, value: again.value, headers: again.headers },
            reply,
        ) == decoded(format, record, reply),
{
    let fields = decoded(format, record, reply)->Ok_0;
    let raw = format is Raw;
    let offset = JsonTree::Str(decimal(message.offset as int));
    let timestamp = JsonTree::Str(decimal(message.millis() as int));
    let ahead = JsonTree::Int(ahead_of(watermarks, message.partition, message.offset));
    let with_offset = fields.insert("offset"@, offset);
    let with_timestamp = with_offset.insert("timestamp"@, timestamp);
    lemma_host_names_differ("offset"@);
    lemma_host_names_differ("timestamp"@);
    lemma_host_names_differ("ahead"@);
    law_encode_ignores_other_fields(raw, fields, "offset"@, offset);
    law_encode_ignores_other_fields(raw, with_offset, "timestamp"@, timestamp);
    law_encode_ignores_other_fields(raw, with_timestamp, "ahead"@, ahead);
    lemma_record_fields_shown(record, fields["value"@]);
    if raw {
        law_raw_decode_undoes_encode(fields, again, reply);
    } else {
        law_json_decode_undoes_encode(fields, again, reply);
    }
}

/// The names of the fields that the host adds are not those of a record's own fields.
proof fn lemma_host_names_differ(name: Seq<char>)
    requires
        name == "offset"@ || name == "timestamp"@ || name == "ahead"@,
    ensures
        name != "key"@,
        name != "headers"@,
        name != "value"@,
{
    reveal_strlit("offset");
    reveal_strlit("timestamp");
    reveal_strlit("ahead");
    reveal_strlit("key");
    reveal_strlit("headers");
    reveal_strlit("value");
    assert("key"@.len() == 3 && "headers"@.len() == 7 && "value"@.len() == 5);
    assert("ahead"@[0] != "value"@[0]);
}

/// The batch line of some messages of a partition.
pub open spec fn batch_tree(topic: Seq<char>, partition: i32, messages: Seq<JsonTree>) -> JsonTree {
    JsonTree::Object(
        Map::<Seq<char>, JsonTree>::empty().insert("topic"@, JsonTree::Str(topic)).insert(
            "partition"@,
            JsonTree::Int(partition as int),
        ).insert("messages"@, JsonTree::Array(messages)),
    )
}

/// Messages of one partition that are written as one line.
#[verifier::ext_equal]
pub struct Batch {
    pub partition: i32,
    pub messages: Seq<JsonTree>,
}

/// The bytes of some batches, one line each.
pub open spec fn batch_bytes(topic: Seq<char>, batches: Seq<Batch>) -> Seq<u8>
    decreases batches.len(),
{
    if batches.len() == 0 {
        Seq::empty()
    } else {
        batch_bytes(topic, batches.drop_last()) + jsonl(
            batch_tree(topic, batches.last().partition, batches.last().messages),
        )
    }
}

/// The messages of a partition as batches: none where there are none.
pub open spec fn as_batches(partition: i32, messages: Seq<JsonTree>) -> Seq<Batch> {
    if messages.len() == 0 {
        Seq::empty()
    } else {
        seq![Batch { partition, messages }]
    }
}

/// Whether the text of each batch is one line that is read back as the batch.
pub open spec fn batches_are_lines(topic: Seq<char>, batches: Seq<Batch>) -> bool {
    forall|i: int|
        0 <= i < batches.len() ==> is_line(
            batch_tree(topic, (#[trigger] batches[i]).partition, batches[i].messages),
        )
}

/// The texts of some batches.
pub open spec fn batch_texts(topic: Seq<char>, batches: Seq<Batch>) -> Seq<Seq<u8>> {
    Seq::new(
        batches.len(),
        |i: int|
            encode_utf8(json_text(batch_tree(topic, batches[i].partition, batches[i].messages))),
    )
}

/// What is written for some batches are their lines: one for each batch, in order, and nothing
/// else.
pub proof fn law_output_is_one_line_per_batch(topic: Seq<char>, batches: Seq<Batch>)
    requires
        batches_are_lines(topic, batches),
    ensures
        split_lines(batch_bytes(topic, batches)) == (
            batch_texts(topic, batches),
            Seq::<u8>::empty(),
        ),
        split_lines(batch_bytes(topic, batches)).0.len() == batches.len(),
        forall|i: int|
            0 <= i < batches.len() ==> #[trigger] split_lines(batch_bytes(topic, batches)).0[i]
                == encode_utf8(
                json_text(batch_tree(topic, batches[i].partition, batches[i].messages)),
            ),
    decreases batches.len(),
{
    if batches.len() == 0 {
        assert(batch_texts(topic, batches) =~= Seq::empty());
    } else {
        let rest = batches.drop_last();
        let last = batch_tree(topic, batches.last().partition, batches.last().messages);
        assert forall|i: int| 0 <= i < rest.len() implies is_line(
            batch_tree(topic, (#[trigger] rest[i]).partition, rest[i].messages),
        ) by {
            assert(rest[i] == batches[i]);
        }
        law_output_is_one_line_per_batch(topic, rest);
        law_value_is_one_line(batch_bytes(topic, rest), last);
        assert(batch_texts(topic, batches) =~= batch_texts(topic, rest).push(
            encode_utf8(json_text(last)),
        ));
    }
}

proof fn lemma_lines_join(topic: Seq<char>, a: Seq<Batch>, b: Seq<Batch>)
    requires
        batches_are_lines(topic, a),
        batches_are_lines(topic, b),
    ensures
        batches_are_lines(topic, a + b),
{
    assert forall|i: int| 0 <= i < (a + b).len() implies is_line(
        batch_tree(topic, (#[trigger] (a + b)[i]).partition, (a + b)[i].messages),
    ) by {
        if i < a.len() {
            assert((a + b)[i] == a[i]);
        } else {
            assert((a + b)[i] == b[i - a.len()]);
        }
    }
}

/// Writes the messages of a partition, if there are any, as one batch line, and drops them. The
/// line is read back as the batch.
pub fn flush_bucket(
    output: &mut Vec<u8>,
    topic: &str,
    partition: i32,
    messages: &mut Vec<Json>,
)
    ensures
        final(messages)@ == Seq::<Json>::empty(),
        final(output)@ == old(output)@ + batch_bytes(
            topic@,
            as_batches(partition, trees(old(messages)@)),
        ),
        batches_are_lines(topic@, as_batches(partition, trees(old(messages)@))),
{
    proof {
        lemma_trees(messages@);
    }
    let ghost held = trees(messages@);
    let ghost batches = as_batches(partition, held);
    if messages.is_empty() {
        proof {
            assert(messages@ =~= Seq::<Json>::empty());
            assert(output@ =~= output@ + batch_bytes(topic@, batches));
        }
        return;
    }
    let mut taken: Vec<Json> = Vec::new();
    std::mem::swap(&mut taken, messages);
    let mut line = JsonObject::new();
    line.insert("topic".to_owned(), Json::Str(topic.to_owned()));
    line.insert("partition".to_owned(), Json::Negative(partition as i64));
    line.insert("messages".to_owned(), Json::Array(taken));
    let line = Json::Object(line);
    write_jsonl(output, &line);
    proof {
        assert(line@ == batch_tree(topic@, partition, held));
        assert(batches.drop_last() =~= Seq::<Batch>::empty());
        assert(batch_bytes(topic@, batches.drop_last()) =~= Seq::<u8>::empty());
        assert(batch_bytes(topic@, batches) =~= jsonl(line@));
    }
}

/// How far a run has come: the messages that wait to be written, the partitions in which a
/// snapshot still has something to read, and the number of messages consumed.
#[verifier::ext_equal]
pub struct Progress {
    pub buckets: Map<i32, Seq<JsonTree>>,
    pub remaining: Set<i32>,
    pub index: int,
}

/// What handling an item comes to.
#[verifier::ext_equal]
pub struct Outcome {
    pub after: Progress,
    pub batches: Seq<Batch>,
    pub stop: bool,
}

/// The messages in each bucket.
pub open spec fn bucket_trees(buckets: Map<i32, Vec<Json>>) -> Map<i32, Seq<JsonTree>> {
    buckets.map_values(|messages: Vec<Json>| trees(messages@))
}

/// How far a run has come.
pub open spec fn progress(
    buckets: BTreeMap<i32, Vec<Json>>,
    remaining: HashSet<i32>,
    index: u64,
) -> Progress {
    Progress { buckets: bucket_trees(buckets@), remaining: remaining@, index: index as int }
}

/// The messages of a partition that wait to be written.
pub open spec fn waiting(buckets: Map<i32, Seq<JsonTree>>, partition: i32) -> Seq<JsonTree> {
    if buckets.contains_key(partition) {
        buckets[partition]
    } else {
        Seq::empty()
    }
}

/// Whether a record lies at or past the high watermark that a snapshot captured.
pub open spec fn beyond(ctx: Ctx<'_>, partition: i32, offset: i64) -> bool {
    ctx.snapshot && at_high(ctx.watermarks@, partition, offset)
}

/// Whether a record is the last one, or a later one, that a snapshot reads of its partition.
pub open spec fn finishes(ctx: Ctx<'_>, partition: i32, offset: i64) -> bool {
    ctx.snapshot && reaches_high(ctx.watermarks@, partition, offset)
}

/// Whether a message is shown: it lies below the snapshot's high watermark and is not skipped.
pub open spec fn shows(ctx: Ctx<'_>, message: KafkaMessage, index: int) -> bool {
    !beyond(ctx, message.partition, message.offset) && index >= ctx.skip
}

/// The buckets with one more line; a bucket that is full is written.
pub open spec fn put_line(
    ctx: Ctx<'_>,
    buckets: Map<i32, Seq<JsonTree>>,
    partition: i32,
    line: JsonTree,
) -> (Map<i32, Seq<JsonTree>>, Seq<Batch>) {
    let messages = waiting(buckets, partition).push(line);
    if messages.len() >= ctx.batch_limit {
        (buckets.insert(partition, Seq::empty()), seq![Batch { partition, messages }])
    } else {
        (buckets.insert(partition, messages), Seq::empty())
    }
}

/// What a message comes to once its line, if it is shown, has been put.
pub open spec fn counted(
    ctx: Ctx<'_>,
    message: KafkaMessage,
    before: Progress,
    buckets: Map<i32, Seq<JsonTree>>,
    batches: Seq<Batch>,
) -> Outcome {
    let done = finishes(ctx, message.partition, message.offset);
    let remaining = if done {
        before.remaining.remove(message.partition)
    } else {
        before.remaining
    };
    if done && remaining.is_empty() {
        Outcome {
            after: Progress { buckets, remaining, index: before.index },
            batches,
            stop: true,
        }
    } else {
        Outcome {
            after: Progress { buckets, remaining, index: before.index + 1 },
            batches,
            stop: before.index + 1 >= ctx.limit,
        }
    }
}

/// What a message comes to.
pub open spec fn message_step(
    ctx: Ctx<'_>,
    message: KafkaMessage,
    reply: DecodeReply,
    before: Progress,
) -> Result<Outcome, Seq<char>> {
    let partition = message.partition;
    if beyond(ctx, partition, message.offset) {
        let remaining = before.remaining.remove(partition);
        Ok(
            Outcome {
                after: Progress { remaining, ..before },
                batches: Seq::empty(),
                stop: remaining.is_empty(),
            },
        )
    } else if shows(ctx, message, before.index) {
        match decoded_line(ctx, message, reply) {
            Ok(line) => {
                let (buckets, batches) = put_line(ctx, before.buckets, partition, line);
                Ok(counted(ctx, message, before, buckets, batches))
            },
            Err(e) => Err(e),
        }
    } else {
        Ok(counted(ctx, message, before, before.buckets, Seq::empty()))
    }
}

fn is_beyond(ctx: &Ctx<'_>, partition: i32, offset: i64) -> (r: bool)
    ensures
        r == beyond(*ctx, partition, offset),
{
    ctx.snapshot && is_at_high(ctx.watermarks, partition, offset)
}

/// Whether a message will be shown, so that it has to be decoded.
pub fn wants_decode(ctx: &Ctx<'_>, message: &KafkaMessage, index: u64) -> (r: bool)
    ensures
        r == shows(*ctx, *message, index as int),
{
    !is_beyond(ctx, message.partition, message.offset) && index >= ctx.skip
}

fn add_line(
    ctx: &Ctx<'_>,
    partition: i32,
    line: Json,
    buckets: &mut BTreeMap<i32, Vec<Json>>,
    output: &mut Vec<u8>,
)
    ensures
        ({
            let put = put_line(*ctx, bucket_trees(old(buckets)@), partition, line@);
            &&& bucket_trees(final(buckets)@) == put.0
            &&& final(output)@ == old(output)@ + batch_bytes(ctx.topic@, put.1)
            &&& batches_are_lines(ctx.topic@, put.1)
        }),
{
    let ghost before = bucket_trees(buckets@);
    let ghost put = put_line(*ctx, before, partition, line@);
    let ghost written = output@;
    let mut messages = match buckets.remove(&partition) {
        Some(messages) => messages,
        None => Vec::new(),
    };
    proof {
        lemma_trees(messages@);
        assert(trees(messages@) =~= waiting(before, partition));
        assert(messages@.push(line).drop_last() =~= messages@);
    }
    messages.push(line);
    let ghost full = trees(messages@);
    proof {
        lemma_trees(messages@);
        assert(full =~= waiting(before, partition).push(line@));
    }
    if messages.len() >= ctx.batch_limit {
        flush_bucket(output, ctx.topic, partition, &mut messages);
        proof {
            assert(as_batches(partition, full) =~= put.1);
        }
    } else {
        proof {
            assert(batch_bytes(ctx.topic@, put.1) =~= Seq::<u8>::empty());
            assert(output@ =~= written + batch_bytes(ctx.topic@, put.1));
        }
    }
    buckets.insert(partition, messages);
    proof {
        lemma_trees(messages@);
        assert(bucket_trees(buckets@) =~= put.0);
    }
}

/// Handles a message. A component formatter's answer is handed in where the message is shown.
pub fn handle_message(
    ctx: &Ctx<'_>,
    message: &KafkaMessage,
    reply: &DecodeReply,
    buckets: &mut BTreeMap<i32, Vec<Json>>,
    snapshot_remaining: &mut HashSet<i32>,
    index: &mut u64,
    output: &mut Vec<u8>,
) -> (r: Result<Flow, Error>)
    requires
        *old(index) < u64::MAX,
        ctx.format is Wasm && shows(*ctx, *message, *old(index) as int) ==> reply !is NotAsked,
    ensures
        ({
            let before = progress(*old(buckets), *old(snapshot_remaining), *old(index));
            let after = progress(*final(buckets), *final(snapshot_remaining), *final(index));
            match (r, message_step(*ctx, *message, *reply, before)) {
                (Ok(flow), Ok(outcome)) => {
                    &&& after == outcome.after
                    &&& final(output)@ == old(output)@ + batch_bytes(ctx.topic@, outcome.batches)
                    &&& batches_are_lines(ctx.topic@, outcome.batches)
                    &&& (flow is Stop) == outcome.stop
                },
                (Err(e), Err(text)) => {
                    &&& e@ == text
                    &&& after == before
                    &&& final(output)@ == old(output)@
                },
                _ => false,
            }
        }),
{
    let partition: i32 = message.partition;
    let offset: i64 = message.offset;
    let ghost written = output@;
    proof {
        assert(batch_bytes(ctx.topic@, Seq::<Batch>::empty()) =~= Seq::<u8>::empty());
        assert(written =~= written + Seq::<u8>::empty());
    }
    if is_beyond(ctx, partition, offset) {
        snapshot_remaining.remove(&partition);
        return Ok(
            if snapshot_remaining.is_empty() {
                Flow::Stop
            } else {
                Flow::Continue
            },
        );
    }
    if *index >= ctx.skip {
        let line = match decode_message(ctx, message, reply) {
            Ok(line) => line,
            Err(e) => {
                return Err(e);
            },
        };
        add_line(ctx, partition, line, buckets, output);
    }
    if ctx.snapshot && does_reach_high(ctx.watermarks, partition, offset) {
        snapshot_remaining.remove(&partition);
        if snapshot_remaining.is_empty() {
            return Ok(Flow::Stop);
        }
    }
    *index += 1;
    if *index >= ctx.limit {
        return Ok(Flow::Stop);
    }
    Ok(Flow::Continue)
}

/// The batches of some partitions, one after the other.
pub open spec fn batches_of(partitions: Seq<i32>, buckets: Map<i32, Seq<JsonTree>>) -> Seq<Batch>
    decreases partitions.len(),
{
    if partitions.len() == 0 {
        Seq::empty()
    } else {
        batches_of(partitions.drop_last(), buckets) + as_batches(
            partitions.last(),
            waiting(buckets, partitions.last()),
        )
    }
}

/// What is written when all buckets are: their batches in ascending order of the partitions.
pub open spec fn flushed(buckets: Map<i32, Seq<JsonTree>>) -> Seq<Batch> {
    batches_of(ascending_ids(buckets.dom()), buckets)
}

/// The buckets once all have been written: empty.
pub open spec fn emptied(buckets: Map<i32, Seq<JsonTree>>) -> Map<i32, Seq<JsonTree>> {
    buckets.map_values(|messages: Seq<JsonTree>| Seq::<JsonTree>::empty())
}

proof fn lemma_batch_bytes_join(topic: Seq<char>, a: Seq<Batch>, b: Seq<Batch>)
    ensures
        batch_bytes(topic, a + b) == batch_bytes(topic, a) + batch_bytes(topic, b),
    decreases b.len(),
{
    if b.len() == 0 {
        assert(a + b =~= a);
        assert(batch_bytes(topic, a) + batch_bytes(topic, b) =~= batch_bytes(topic, a));
    } else {
        lemma_batch_bytes_join(topic, a, b.drop_last());
        assert((a + b).drop_last() =~= a + b.drop_last());
        assert(batch_bytes(topic, a + b) =~= batch_bytes(topic, a) + batch_bytes(topic, b));
    }
}

/// Writes all buckets, in ascending order of the partitions.
pub fn flush_all(output: &mut Vec<u8>, topic: &str, buckets: &mut BTreeMap<i32, Vec<Json>>)
    ensures
        bucket_trees(final(buckets)@) == emptied(bucket_trees(old(buckets)@)),
        final(output)@ == old(output)@ + batch_bytes(
            topic@,
            flushed(bucket_trees(old(buckets)@)),
        ),
        batches_are_lines(topic@, flushed(bucket_trees(old(buckets)@))),
{
    let ghost before = bucket_trees(buckets@);
    let ghost written = output@;
    let keys = sorted_keys(buckets);
    let mut i: usize = 0;
    proof {
        assert(before.dom() =~= buckets@.dom());
        assert(keys@.take(0) =~= Seq::<i32>::empty());
        assert(output@ =~= written + batch_bytes(topic@, batches_of(keys@.take(0), before)));
    }
    while i < keys.len()
        invariant
            i <= keys@.len(),
            lists(keys@, before.dom(), id_order()),
            bucket_trees(buckets@).dom() == before.dom(),
            forall|j: int|
                0 <= j < i ==> bucket_trees(buckets@)[#[trigger] keys@[j]] == Seq::<
                    JsonTree,
                >::empty(),
            forall|j: int|
                i <= j < keys@.len() ==> bucket_trees(buckets@)[#[trigger] keys@[j]]
                    == before[keys@[j]],
            output@ == written + batch_bytes(topic@, batches_of(keys@.take(i as int), before)),
            batches_are_lines(topic@, batches_of(keys@.take(i as int), before)),
        decreases keys.len() - i,
    {
        let key: i32 = keys[i];
        let ghost held = bucket_trees(buckets@);
        proof {
            assert(keys@.contains(keys@[i as int]));
            assert(before.dom().contains(key));
            assert(held.contains_key(key));
        }
        let mut messages = match buckets.remove(&key) {
            Some(messages) => messages,
            None => Vec::new(),
        };
        proof {
            assert(trees(messages@) == held[key]);
        }
        flush_bucket(output, topic, key, &mut messages);
        buckets.insert(key, messages);
        proof {
            assert(keys@.take(i + 1).drop_last() =~= keys@.take(i as int));
            lemma_batch_bytes_join(
                topic@,
                batches_of(keys@.take(i as int), before),
                as_batches(key, before[key]),
            );
            lemma_lines_join(
                topic@,
                batches_of(keys@.take(i as int), before),
                as_batches(key, before[key]),
            );
            assert(output@ =~= written + batch_bytes(topic@, batches_of(keys@.take(i + 1), before)));
            assert(bucket_trees(buckets@) =~= held.insert(key, Seq::<JsonTree>::empty()));
            assert(bucket_trees(buckets@).dom() =~= before.dom());
            assert forall|j: int| 0 <= j < i + 1 implies bucket_trees(buckets@)[#[trigger] keys@[j]]
                == Seq::<JsonTree>::empty() by {}
            assert forall|j: int| i + 1 <= j < keys@.len() implies bucket_trees(
                buckets@,
            )[#[trigger] keys@[j]] == before[keys@[j]] by {
                assert(id_order()(keys@[i as int], keys@[j]));
            }
        }
        i += 1;
    }
    proof {
        assert(keys@.take(keys@.len() as int) =~= keys@);
        assert forall|p: i32| before.contains_key(p) implies #[trigger] bucket_trees(buckets@)[p]
            == Seq::<JsonTree>::empty() by {
            assert(before.dom().contains(p));
            let j = choose|j: int| 0 <= j < keys@.len() && keys@[j] == p;
            assert(keys@[j] == p);
        }
        assert(bucket_trees(buckets@) =~= emptied(before));
    }
}

/// What an item comes to.
pub open spec fn item_step(
    ctx: Ctx<'_>,
    item: Item,
    reply: DecodeReply,
    before: Progress,
) -> Result<Outcome, Seq<char>> {
    match item {
        Item::Message(message) => message_step(ctx, message, reply, before),
        Item::PartitionEof(partition) => if ctx.snapshot {
            let remaining = before.remaining.remove(partition);
            Ok(
                Outcome {
                    after: Progress { remaining, ..before },
                    batches: Seq::empty(),
                    stop: remaining.is_empty(),
                },
            )
        } else {
            Ok(Outcome { after: before, batches: Seq::empty(), stop: false })
        },
        Item::Failed(text) => Err(text@),
        Item::Ended => Ok(Outcome { after: before, batches: Seq::empty(), stop: true }),
    }
}

/// Whether an item is a message that will be shown.
pub open spec fn shows_item(ctx: Ctx<'_>, item: Item, index: int) -> bool {
    match item {
        Item::Message(message) => shows(ctx, message, index),
        _ => false,
    }
}

/// Handles an item of the stream, and tells whether the run stops. A component formatter's answer
/// is handed in where the item is a message that is shown.
pub fn handle_item(
    ctx: &Ctx<'_>,
    item: &Item,
    reply: &DecodeReply,
    buckets: &mut BTreeMap<i32, Vec<Json>>,
    snapshot_remaining: &mut HashSet<i32>,
    index: &mut u64,
    output: &mut Vec<u8>,
) -> (r: Result<bool, Error>)
    requires
        *old(index) < u64::MAX,
        ctx.format is Wasm && shows_item(*ctx, *item, *old(index) as int) ==> reply !is NotAsked,
    ensures
        ({
            let before = progress(*old(buckets), *old(snapshot_remaining), *old(index));
            let after = progress(*final(buckets), *final(snapshot_remaining), *final(index));
            match (r, item_step(*ctx, *item, *reply, before)) {
                (Ok(stop), Ok(outcome)) => {
                    &&& after == outcome.after
                    &&& final(output)@ == old(output)@ + batch_bytes(ctx.topic@, outcome.batches)
                    &&& batches_are_lines(ctx.topic@, outcome.batches)
                    &&& stop == outcome.stop
                },
                (Err(e), Err(text)) => {
                    &&& e@ == text
                    &&& after == before
                    &&& final(output)@ == old(output)@
                },
                _ => false,
            }
        }),
{
    proof {
        assert(batch_bytes(ctx.topic@, Seq::<Batch>::empty()) =~= Seq::<u8>::empty());
        assert(output@ =~= output@ + Seq::<u8>::empty());
    }
    match item {
        Item::Message(message) => {
            match handle_message(ctx, message, reply, buckets, snapshot_remaining, index, output) {
                Ok(Flow::Stop) => Ok(true),
                Ok(Flow::Continue) => Ok(false),
                Err(e) => Err(e),
            }
        },
        Item::PartitionEof(partition) => {
            if !ctx.snapshot {
                return Ok(false);
            }
            snapshot_remaining.remove(partition);
            Ok(snapshot_remaining.is_empty())
        },
        Item::Failed(text) => Err(Error::new(text.clone())),
        Item::Ended => Ok(true),
    }
}

/// The number of consumed messages at which a run stops: those skipped and those shown.
pub open spec fn limit_of(count: Option<u64>, skip: u64) -> int {
    match count {
        Some(n) => if n + skip > u64::MAX {
            u64::MAX as int
        } else {
            n + skip
        },
        None => u64::MAX as int,
    }
}

/// The number of consumed messages at which a run stops.
pub fn message_limit(count: Option<u64>, skip: u64) -> (r: u64)
    ensures
        r == limit_of(count, skip),
{
    match count {
        Some(n) => if n > u64::MAX - skip {
            u64::MAX
        } else {
            n + skip
        },
        None => u64::MAX,
    }
}

/// What holds throughout the run that the arguments ask for. A batch holds at least one message.
pub fn context<'a>(
    args: &'a Args,
    watermarks: &'a BTreeMap<i32, (i64, i64)>,
    format: &'a Formatter,
) -> (r: Ctx<'a>)
    ensures
        r.topic@ == args.topic@,
        r.snapshot == args.snapshot,
        r.skip == args.skip,
        r.limit == limit_of(args.count, args.skip),
        r.batch_limit == (if args.batch_limit == 0 {
            1
        } else {
            args.batch_limit
        }),
        r.watermarks == watermarks,
        r.format == format,
{
    Ctx {
        topic: args.topic.as_str(),
        snapshot: args.snapshot,
        skip: args.skip,
        limit: message_limit(args.count, args.skip),
        batch_limit: if args.batch_limit == 0 {
            1
        } else {
            args.batch_limit
        },
        watermarks,
        format,
    }
}

/// The number of items that are handled after the first one before buckets are written.
pub fn pool_size(ctx: &Ctx<'_>) -> (r: usize)
    ensures
        r == (if ctx.batch_limit == 0 {
            0
        } else {
            ctx.batch_limit - 1
        }),
{
    if ctx.batch_limit == 0 {
        0
    } else {
        ctx.batch_limit - 1
    }
}

/// Where the arguments ask reading to start: at the end unless a start is given, but a snapshot
/// starts at the beginning.
pub open spec fn start_asked(from: Option<String>, snapshot: bool) -> Result<StartFrom, Seq<char>> {
    match from {
        Some(text) => start_named(text@),
        None => if snapshot {
            Ok(StartFrom::Beginning)
        } else {
            Ok(StartFrom::End)
        },
    }
}

/// Where the arguments ask reading to start.
pub fn start_of(args: &Args) -> (r: Result<StartFrom, Error>)
    ensures
        match r {
            Ok(start) => start_asked(args.from, args.snapshot) == Ok::<StartFrom, Seq<char>>(start),
            Err(e) => start_asked(args.from, args.snapshot) == Err::<StartFrom, Seq<char>>(e@),
        },
{
    match &args.from {
        Some(text) => start_from(text.as_str()),
        None => Ok(
            if args.snapshot {
                StartFrom::Beginning
            } else {
                StartFrom::End
            },
        ),
    }
}

/// Settings with those of the consumer on top. A snapshot asks to be told where partitions end:
/// the high watermark can lie above the last record that is delivered.
pub open spec fn consumer_entries(
    entries: Map<Seq<char>, Seq<char>>,
    group: Seq<char>,
    snapshot: bool,
) -> Map<Seq<char>, Seq<char>> {
    let consuming = entries.insert("group.id"@, group).insert("enable.auto.commit"@, "true"@).insert(
        "session.timeout.ms"@,
        "30000"@,
    ).insert("heartbeat.interval.ms"@, "1000"@).insert("auto.offset.reset"@, "earliest"@);
    if snapshot {
        consuming.insert("enable.partition.eof"@, "true"@)
    } else {
        consuming
    }
}

/// Puts the settings of the consumer on top of others.
pub fn consumer_config(config: &mut ClientConfig, group: &str, snapshot: bool)
    ensures
        config_entries(*final(config)) == consumer_entries(
            config_entries(*old(config)),
            group@,
            snapshot,
        ),
{
    set_entry(config, "group.id", group);
    set_entry(config, "enable.auto.commit", "true");
    set_entry(config, "session.timeout.ms", "30000");
    set_entry(config, "heartbeat.interval.ms", "1000");
    set_entry(config, "auto.offset.reset", "earliest");
    if snapshot {
        set_entry(config, "enable.partition.eof", "true");
    }
}

/// The exit code of a run: a timeout fails; a signal, like completion, does not.
pub fn exit_code(stop: SnapshotStop) -> (r: i32)
    ensures
        stop is Timeout ==> r == 1,
        stop !is Timeout ==> r == 0,
{
    match stop {
        SnapshotStop::Timeout => 1,
        _ => 0,
    }
}

/// What a run does next.
#[derive(Clone, Copy, Debug, PartialEq, Eq)]
pub enum Phase {
    /// it waits for an item, the deadline or a signal
    Waiting,
    /// it asks for items that are ready; so many more are taken
    Draining(usize),
    /// it has ended
    Finished(SnapshotStop),
}

/// How far a run has come, and what it does next.
#[verifier::ext_equal]
pub struct Stage {
    pub progress: Progress,
    pub phase: Phase,
}

/// What a run comes to when it is told something, and the batches that it writes.
#[verifier::ext_equal]
pub struct Advance {
    pub stage: Stage,
    pub batches: Seq<Batch>,
}

/// All buckets are written, and the run goes to another phase.
pub open spec fn flush_to(progress: Progress, batches: Seq<Batch>, phase: Phase) -> Advance {
    Advance {
        stage: Stage {
            progress: Progress { buckets: emptied(progress.buckets), ..progress },
            phase,
        },
        batches: batches + flushed(progress.buckets),
    }
}

/// The number of items that may still be handled before buckets are written, once an item has
/// been handled in a phase.
pub open spec fn left_after(ctx: Ctx<'_>, phase: Phase) -> int {
    match phase {
        Phase::Draining(left) => left - 1,
        _ => ctx.batch_limit - 1,
    }
}

/// What a run comes to when it is told something. Items are handled until none is ready, the pool
/// is used up or the run stops; then all buckets are written.
pub open spec fn advance(ctx: Ctx<'_>, stage: Stage, signal: Signal, reply: DecodeReply) -> Result<
    Advance,
    Seq<char>,
> {
    match signal {
        Signal::Item(item) => match item_step(ctx, item, reply, stage.progress) {
            Err(e) => Err(e),
            Ok(outcome) => if outcome.stop {
                Ok(
                    flush_to(
                        outcome.after,
                        outcome.batches,
                        Phase::Finished(SnapshotStop::Complete),
                    ),
                )
            } else if left_after(ctx, stage.phase) <= 0 {
                Ok(flush_to(outcome.after, outcome.batches, Phase::Waiting))
            } else {
                Ok(
                    Advance {
                        stage: Stage {
                            progress: outcome.after,
                            phase: Phase::Draining(left_after(ctx, stage.phase) as usize),
                        },
                        batches: outcome.batches,
                    },
                )
            },
        },
        Signal::Pending => Ok(flush_to(stage.progress, Seq::empty(), Phase::Waiting)),
        Signal::Timeout => Ok(
            flush_to(stage.progress, Seq::empty(), Phase::Finished(SnapshotStop::Timeout)),
        ),
        Signal::Sigint => Ok(
            flush_to(stage.progress, Seq::empty(), Phase::Finished(SnapshotStop::Sigint)),
        ),
        Signal::Sigterm => Ok(
            flush_to(stage.progress, Seq::empty(), Phase::Finished(SnapshotStop::Sigterm)),
        ),
    }
}

/// Whether a signal brings a message that will be shown.
pub open spec fn shows_signal(ctx: Ctx<'_>, signal: Signal, index: int) -> bool {
    match signal {
        Signal::Item(item) => shows_item(ctx, item, index),
        _ => false,
    }
}

/// A run of the `consume` command.
#[derive(Debug)]
pub struct Session {
    pub buckets: BTreeMap<i32, Vec<Json>>,
    pub remaining: HashSet<i32>,
    pub index: u64,
    /// the lines that have not been handed on
    pub output: Vec<u8>,
    pub phase: Phase,
}

impl Session {
    /// How far the run has come.
    pub open spec fn stage(self) -> Stage {
        Stage {
            progress: progress(self.buckets, self.remaining, self.index),
            phase: self.phase,
        }
    }

    /// A run that begins; a snapshot reads what remains of the given partitions.
    pub fn new(remaining: HashSet<i32>) -> (r: Session)
        ensures
            r.stage() == (Stage {
                progress: Progress {
                    buckets: Map::empty(),
                    remaining: remaining@,
                    index: 0,
                },
                phase: Phase::Waiting,
            }),
            r.output@ == Seq::<u8>::empty(),
    {
        let session = Session {
            buckets: BTreeMap::new(),
            remaining,
            index: 0,
            output: Vec::new(),
            phase: Phase::Waiting,
        };
        proof {
            assert(bucket_trees(session.buckets@) =~= Map::<i32, Seq<JsonTree>>::empty());
        }
        session
    }

    /// The run that the arguments ask for, unless it is a snapshot of which nothing remains.
    pub fn begin(
        args: &Args,
        assignments: &Vec<(i32, Offset)>,
        watermarks: &BTreeMap<i32, (i64, i64)>,
    ) -> (r: Option<Session>)
        ensures
            ({
                let left = if args.snapshot {
                    unread(assignments@, watermarks@)
                } else {
                    Set::empty()
                };
                match r {
                    Some(session) => {
                        &&& args.snapshot ==> !left.is_empty()
                        &&& session.stage() == (Stage {
                            progress: Progress {
                                buckets: Map::empty(),
                                remaining: left,
                                index: 0,
                            },
                            phase: Phase::Waiting,
                        })
                        &&& session.output@ == Seq::<u8>::empty()
                    },
                    None => args.snapshot && left.is_empty(),
                }
            }),
    {
        if !args.snapshot {
            return Some(Session::new(HashSet::new()));
        }
        let remaining = remaining_partitions(assignments, watermarks);
        if remaining.is_empty() {
            None
        } else {
            Some(Session::new(remaining))
        }
    }

    /// Whether what the run is told has to be decoded.
    pub fn wants_decode(&self, ctx: &Ctx<'_>, signal: &Signal) -> (r: bool)
        ensures
            r == shows_signal(*ctx, *signal, self.index as int),
    {
        match signal {
            Signal::Item(Item::Message(message)) => wants_decode(ctx, message, self.index),
            _ => false,
        }
    }

    fn flush(&mut self, ctx: &Ctx<'_>, phase: Phase)
        ensures
            ({
                let flushing = flush_to(old(self).stage().progress, Seq::empty(), phase);
                &&& final(self).stage() == flushing.stage
                &&& final(self).output@ == old(self).output@ + batch_bytes(
                    ctx.topic@,
                    flushing.batches,
                )
                &&& batches_are_lines(ctx.topic@, flushing.batches)
            }),
    {
        proof {
            let buckets = bucket_trees(self.buckets@);
            assert(Seq::<Batch>::empty() + flushed(buckets) =~= flushed(buckets));
        }
        flush_all(&mut self.output, ctx.topic, &mut self.buckets);
        self.phase = phase;
    }

    /// Tells the run something. A component formatter's answer is handed in where a message is
    /// shown.
    pub fn advance(&mut self, ctx: &Ctx<'_>, signal: &Signal, reply: &DecodeReply) -> (r: Result<
        Phase,
        Error,
    >)
        requires
            ctx.batch_limit >= 1,
            old(self).phase !is Finished,
            old(self).phase matches Phase::Draining(left) ==> left > 0,
            old(self).index < u64::MAX,
            ctx.format is Wasm && shows_signal(*ctx, *signal, old(self).index as int) ==> reply
                !is NotAsked,
        ensures
            match (r, advance(*ctx, old(self).stage(), *signal, *reply)) {
                (Ok(phase), Ok(next)) => {
                    &&& final(self).stage() == next.stage
                    &&& final(self).output@ == old(self).output@ + batch_bytes(
                        ctx.topic@,
                        next.batches,
                    )
                    &&& batches_are_lines(ctx.topic@, next.batches)
                    &&& phase == next.stage.phase
                },
                (Err(e), Err(text)) => {
                    &&& e@ == text
                    &&& final(self).stage() == old(self).stage()
                    &&& final(self).output@ == old(self).output@
                },
                _ => false,
            },
    {
        match signal {
            Signal::Item(item) => {
                let ghost written = self.output@;
                let stop = match handle_item(
                    ctx,
                    item,
                    reply,
                    &mut self.buckets,
                    &mut self.remaining,
                    &mut self.index,
                    &mut self.output,
                ) {
                    Ok(stop) => stop,
                    Err(e) => {
                        return Err(e);
                    },
                };
                let ghost outcome = item_step(*ctx, *item, *reply, old(self).stage().progress)->Ok_0;
                proof {
                    let all = flushed(outcome.after.buckets);
                    lemma_batch_bytes_join(ctx.topic@, outcome.batches, all);
                    assert(written + batch_bytes(ctx.topic@, outcome.batches) + batch_bytes(
                        ctx.topic@,
                        all,
                    ) =~= written + batch_bytes(ctx.topic@, outcome.batches + all));
                    assert(Seq::<Batch>::empty() + all =~= all);
                    if batches_are_lines(ctx.topic@, all) {
                        lemma_lines_join(ctx.topic@, outcome.batches, all);
                    }
                }
                let left: usize = match self.phase {
                    Phase::Draining(left) => left - 1,
                    _ => pool_size(ctx),
                };
                if stop {
                    self.flush(ctx, Phase::Finished(SnapshotStop::Complete));
                } else if left == 0 {
                    self.flush(ctx, Phase::Waiting);
                } else {
                    self.phase = Phase::Draining(left);
                }
            },
            Signal::Pending => {
                self.flush(ctx, Phase::Waiting);
            },
            Signal::Timeout => {
                self.flush(ctx, Phase::Finished(SnapshotStop::Timeout));
            },
            Signal::Sigint => {
                self.flush(ctx, Phase::Finished(SnapshotStop::Sigint));
            },
            Signal::Sigterm => {
                self.flush(ctx, Phase::Finished(SnapshotStop::Sigterm));
            },
        }
        Ok(self.phase)
    }

    /// Hands the lines on that have been written since the last time.
    pub fn take_output(&mut self) -> (r: Vec<u8>)
        ensures
            r@ == old(self).output@,
            final(self).output@ == Seq::<u8>::empty(),
            final(self).stage() == old(self).stage(),
    {
        let mut taken: Vec<u8> = Vec::new();
        std::mem::swap(&mut taken, &mut self.output);
        taken
    }
}

/// A pool of ready items is finite: once an item has come to a waiting run, at most one less than
/// a full batch is taken before buckets are written and time and signals are looked at again; each
/// further item leaves room for one less.
pub proof fn law_pool_is_finite(
    ctx: Ctx<'_>,
    stage: Stage,
    signal: Signal,
    reply: DecodeReply,
    left: usize,
)
    requires
        advance(ctx, stage, signal, reply) matches Ok(next) && next.stage.phase == Phase::Draining(
            left,
        ),
    ensures
        stage.phase is Waiting ==> left == ctx.batch_limit - 1,
        stage.phase matches Phase::Draining(before) ==> left == before - 1,
{
}

/// A run ends with nothing left to write, however it ends.
pub proof fn law_finished_runs_are_flushed(
    ctx: Ctx<'_>,
    stage: Stage,
    signal: Signal,
    reply: DecodeReply,
    partition: i32,
)
    requires
        advance(ctx, stage, signal, reply) matches Ok(next) && next.stage.phase !is Draining,
    ensures
        waiting(advance(ctx, stage, signal, reply)->Ok_0.stage.progress.buckets, partition).len()
            == 0,
{
}

/// What happens in a run: an item comes, with a component's answer, or all buckets are written.
pub enum Event {
    Item(Item, DecodeReply),
    Flush,
}

/// What a run comes to. Once it has stopped, no more items are handled.
pub open spec fn run(ctx: Ctx<'_>, events: Seq<Event>, start: Progress) -> Result<
    Outcome,
    Seq<char>,
>
    decreases events.len(),
{
    if events.len() == 0 {
        Ok(Outcome { after: start, batches: Seq::empty(), stop: false })
    } else {
        match run(ctx, events.drop_last(), start) {
            Err(e) => Err(e),
            Ok(so_far) => match events.last() {
                Event::Flush => Ok(
                    Outcome {
                        after: Progress {
                            buckets: emptied(so_far.after.buckets),
                            ..so_far.after
                        },
                        batches: so_far.batches + flushed(so_far.after.buckets),
                        stop: so_far.stop,
                    },
                ),
                Event::Item(item, reply) => if so_far.stop {
                    Ok(so_far)
                } else {
                    match item_step(ctx, item, reply, so_far.after) {
                        Err(e) => Err(e),
                        Ok(next) => Ok(
                            Outcome {
                                after: next.after,
                                batches: so_far.batches + next.batches,
                                stop: next.stop,
                            },
                        ),
                    }
                },
            },
        }
    }
}

/// What happens in a run when it is told something: an item is handled, and all buckets are
/// written unless the run goes on to ask for items that are ready.
pub open spec fn events_of(signal: Signal, reply: DecodeReply, phase: Phase) -> Seq<Event> {
    match signal {
        Signal::Item(item) => if phase is Draining {
            seq![Event::Item(item, reply)]
        } else {
            seq![Event::Item(item, reply), Event::Flush]
        },
        _ => seq![Event::Flush],
    }
}

/// What a run comes to when it is told something is what comes of the events that this causes.
pub proof fn law_advance_is_run(ctx: Ctx<'_>, stage: Stage, signal: Signal, reply: DecodeReply)
    ensures
        match advance(ctx, stage, signal, reply) {
            Ok(next) => run(ctx, events_of(signal, reply, next.stage.phase), stage.progress) matches Ok(
                outcome,
            ) && outcome.after == next.stage.progress && outcome.batches == next.batches,
            Err(e) => signal matches Signal::Item(item) && run(
                ctx,
                seq![Event::Item(item, reply)],
                stage.progress,
            ) == Err::<Outcome, Seq<char>>(e),
        },
{
    let none = Seq::<Batch>::empty();
    let begin = Ok::<Outcome, Seq<char>>(
        Outcome { after: stage.progress, batches: none, stop: false },
    );
    assert(run(ctx, Seq::<Event>::empty(), stage.progress) == begin);
    match signal {
        Signal::Item(item) => {
            let one = seq![Event::Item(item, reply)];
            let two = seq![Event::Item(item, reply), Event::Flush];
            assert(one.drop_last() =~= Seq::<Event>::empty());
            assert(two.drop_last() =~= one);
            if let Ok(outcome) = item_step(ctx, item, reply, stage.progress) {
                assert(none + outcome.batches =~= outcome.batches);
            }
        },
        _ => {
            let one = seq![Event::Flush];
            assert(one.drop_last() =~= Seq::<Event>::empty());
        },
    }
}

/// When a run that has not stopped is told something, the events that this causes carry it on: it
/// is then as far as the advance says, has written the batches of the advance behind its own, and
/// has stopped only if it has ended.
pub proof fn law_advance_carries_run_on(
    ctx: Ctx<'_>,
    events: Seq<Event>,
    start: Progress,
    stage: Stage,
    signal: Signal,
    reply: DecodeReply,
)
    requires
        run(ctx, events, start) matches Ok(so_far) && !so_far.stop && so_far.after
            == stage.progress,
        advance(ctx, stage, signal, reply) is Ok,
    ensures
        ({
            let so_far = run(ctx, events, start)->Ok_0;
            let next = advance(ctx, stage, signal, reply)->Ok_0;
            run(ctx, events + events_of(signal, reply, next.stage.phase), start) matches Ok(
                outcome,
            ) && outcome.after == next.stage.progress && outcome.batches == so_far.batches
                + next.batches && (outcome.stop ==> next.stage.phase is Finished)
        }),
{
    let so_far = run(ctx, events, start)->Ok_0;
    let next = advance(ctx, stage, signal, reply)->Ok_0;
    match signal {
        Signal::Item(item) => {
            let handled = Event::Item(item, reply);
            let outcome = item_step(ctx, item, reply, stage.progress)->Ok_0;
            let all = flushed(outcome.after.buckets);
            let one = events + seq![handled];
            let two = events + seq![handled, Event::Flush];
            assert(one.drop_last() =~= events);
            assert(two.drop_last() =~= one);
            assert(run(ctx, one, start) == Ok::<Outcome, Seq<char>>(
                Outcome {
                    after: outcome.after,
                    batches: so_far.batches + outcome.batches,
                    stop: outcome.stop,
                },
            ));
            assert((so_far.batches + outcome.batches) + all =~= so_far.batches + (outcome.batches
                + all));
        },
        _ => {
            let one = events + seq![Event::Flush];
            assert(one.drop_last() =~= events);
            assert(next.batches =~= flushed(stage.progress.buckets));
        },
    }
}

/// What a session comes to that is told one thing after the other, with a component's answers, and
/// the batches that it writes. Once it has ended it is told nothing more.
pub open spec fn session(
    ctx: Ctx<'_>,
    told: Seq<(Signal, DecodeReply)>,
    start: Stage,
) -> Result<Advance, Seq<char>>
    decreases told.len(),
{
    if told.len() == 0 {
        Ok(Advance { stage: start, batches: Seq::empty() })
    } else {
        match session(ctx, told.drop_last(), start) {
            Err(e) => Err(e),
            Ok(so_far) => if so_far.stage.phase is Finished {
                Ok(so_far)
            } else {
                match advance(ctx, so_far.stage, told.last().0, told.last().1) {
                    Err(e) => Err(e),
                    Ok(next) => Ok(
                        Advance { stage: next.stage, batches: so_far.batches + next.batches },
                    ),
                }
            },
        }
    }
}

/// What happens in a session.
pub open spec fn session_events(
    ctx: Ctx<'_>,
    told: Seq<(Signal, DecodeReply)>,
    start: Stage,
) -> Seq<Event>
    decreases told.len(),
{
    if told.len() == 0 {
        Seq::empty()
    } else {
        let before = session_events(ctx, told.drop_last(), start);
        match (session(ctx, told.drop_last(), start), session(ctx, told, start)) {
            (Ok(so_far), Ok(end)) => if so_far.stage.phase is Finished {
                before
            } else {
                before + events_of(told.last().0, told.last().1, end.stage.phase)
            },
            _ => before,
        }
    }
}

/// A whole session is a run: it is as far as the run of what happens in it, and has written the
/// batches of that run.
pub proof fn law_session_is_run(ctx: Ctx<'_>, told: Seq<(Signal, DecodeReply)>, start: Stage)
    requires
        session(ctx, told, start) is Ok,
    ensures
        ({
            let end = session(ctx, told, start)->Ok_0;
            run(ctx, session_events(ctx, told, start), start.progress) matches Ok(outcome)
                && outcome.after == end.stage.progress && outcome.batches == end.batches && (
            outcome.stop ==> end.stage.phase is Finished)
        }),
    decreases told.len(),
{
    if told.len() > 0 {
        let earlier = told.drop_last();
        law_session_is_run(ctx, earlier, start);
        let so_far = session(ctx, earlier, start)->Ok_0;
        if so_far.stage.phase !is Finished {
            law_advance_carries_run_on(
                ctx,
                session_events(ctx, earlier, start),
                start.progress,
                so_far.stage,
                told.last().0,
                told.last().1,
            );
        }
    }
}

/// The line that an event adds to a run, with its partition, if it adds one.
pub open spec fn added(ctx: Ctx<'_>, event: Event, so_far: Outcome) -> Option<(i32, JsonTree)> {
    match event {
        Event::Item(Item::Message(message), reply) => if !so_far.stop && shows(
            ctx,
            message,
            so_far.after.index,
        ) {
            match decoded_line(ctx, message, reply) {
                Ok(line) => Some((message.partition, line)),
                Err(_) => None,
            }
        } else {
            None
        },
        _ => None,
    }
}

/// The lines of a run that are shown, with their partitions, in the order of their records.
pub open spec fn shown_lines(ctx: Ctx<'_>, events: Seq<Event>, start: Progress) -> Seq<
    (i32, JsonTree),
>
    decreases events.len(),
{
    if events.len() == 0 {
        Seq::empty()
    } else {
        let before = shown_lines(ctx, events.drop_last(), start);
        match run(ctx, events.drop_last(), start) {
            Err(_) => before,
            Ok(so_far) => match added(ctx, events.last(), so_far) {
                Some(line) => before.push(line),
                None => before,
            },
        }
    }
}

/// The lines of one partition.
pub open spec fn lines_for(lines: Seq<(i32, JsonTree)>, partition: i32) -> Seq<JsonTree>
    decreases lines.len(),
{
    if lines.len() == 0 {
        Seq::empty()
    } else if lines.last().0 == partition {
        lines_for(lines.drop_last(), partition).push(lines.last().1)
    } else {
        lines_for(lines.drop_last(), partition)
    }
}

/// The messages of one partition that stand in some batches, in their order.
pub open spec fn written_for(batches: Seq<Batch>, partition: i32) -> Seq<JsonTree>
    decreases batches.len(),
{
    if batches.len() == 0 {
        Seq::empty()
    } else if batches.last().partition == partition {
        written_for(batches.drop_last(), partition) + batches.last().messages
    } else {
        written_for(batches.drop_last(), partition)
    }
}

proof fn lemma_written_join(a: Seq<Batch>, b: Seq<Batch>, partition: i32)
    ensures
        written_for(a + b, partition) == written_for(a, partition) + written_for(b, partition),
    decreases b.len(),
{
    if b.len() == 0 {
        assert(a + b =~= a);
        assert(written_for(a, partition) + written_for(b, partition) =~= written_for(a, partition));
    } else {
        lemma_written_join(a, b.drop_last(), partition);
        assert((a + b).drop_last() =~= a + b.drop_last());
        assert(written_for(a + b, partition) =~= written_for(a, partition) + written_for(
            b,
            partition,
        ));
    }
}

proof fn lemma_written_as_batches(owner: i32, messages: Seq<JsonTree>, partition: i32)
    ensures
        written_for(as_batches(owner, messages), partition) == (if owner == partition {
            messages
        } else {
            Seq::empty()
        }),
{
    let batches = as_batches(owner, messages);
    if messages.len() == 0 {
        assert(messages =~= Seq::<JsonTree>::empty());
    } else {
        assert(batches.drop_last() =~= Seq::<Batch>::empty());
        assert(written_for(Seq::<Batch>::empty(), partition) =~= Seq::<JsonTree>::empty());
        assert(Seq::<JsonTree>::empty() + messages =~= messages);
    }
}

proof fn lemma_written_batches_of(
    partitions: Seq<i32>,
    buckets: Map<i32, Seq<JsonTree>>,
    partition: i32,
)
    requires
        forall|i: int, j: int|
            0 <= i < j < partitions.len() ==> #[trigger] partitions[i] != #[trigger] partitions[j],
    ensures
        written_for(batches_of(partitions, buckets), partition) == (if partitions.contains(
            partition,
        ) {
            waiting(buckets, partition)
        } else {
            Seq::empty()
        }),
    decreases partitions.len(),
{
    if partitions.len() > 0 {
        let rest = partitions.drop_last();
        let last = partitions.last();
        lemma_written_batches_of(rest, buckets, partition);
        lemma_written_join(
            batches_of(rest, buckets),
            as_batches(last, waiting(buckets, last)),
            partition,
        );
        lemma_written_as_batches(last, waiting(buckets, last), partition);
        if partitions.contains(partition) {
            let i = choose|i: int| 0 <= i < partitions.len() && partitions[i] == partition;
            if i < rest.len() {
                assert(rest[i] == partition);
                assert(partitions[i] != partitions[partitions.len() - 1]);
                assert(waiting(buckets, partition) + Seq::<JsonTree>::empty() =~= waiting(
                    buckets,
                    partition,
                ));
            } else {
                if rest.contains(partition) {
                    let j = choose|j: int| 0 <= j < rest.len() && rest[j] == partition;
                    assert(partitions[j] != partitions[partitions.len() - 1]);
                }
                assert(Seq::<JsonTree>::empty() + waiting(buckets, partition) =~= waiting(
                    buckets,
                    partition,
                ));
            }
        } else {
            if rest.contains(partition) {
                let j = choose|j: int| 0 <= j < rest.len() && rest[j] == partition;
                assert(partitions[j] == partition);
            }
            assert(partitions[partitions.len() - 1] != partition);
        }
    }
}

proof fn lemma_written_flushed(buckets: Map<i32, Seq<JsonTree>>, partition: i32)
    requires
        buckets.dom().finite(),
    ensures
        written_for(flushed(buckets), partition) == waiting(buckets, partition),
{
    let ids = ascending_ids(buckets.dom());
    lemma_ascending_ids_list(buckets.dom());
    assert forall|i: int, j: int| 0 <= i < j < ids.len() implies #[trigger] ids[i]
        != #[trigger] ids[j] by {
        assert(id_order()(ids[i], ids[j]));
    }
    lemma_written_batches_of(ids, buckets, partition);
    assert(buckets.dom().contains(partition) <==> ids.contains(partition));
}

proof fn lemma_run_buckets_finite(ctx: Ctx<'_>, events: Seq<Event>, start: Progress)
    requires
        start.buckets.dom().finite(),
        run(ctx, events, start) is Ok,
    ensures
        run(ctx, events, start)->Ok_0.after.buckets.dom().finite(),
    decreases events.len(),
{
    if events.len() > 0 {
        lemma_run_buckets_finite(ctx, events.drop_last(), start);
        let so_far = run(ctx, events.drop_last(), start)->Ok_0;
        if events.last() is Flush {
            assert(emptied(so_far.after.buckets).dom() =~= so_far.after.buckets.dom());
        }
    }
}

/// Nothing is lost, doubled or moved: what has been written of a partition, with what waits to be
/// written, is what waited at the start, followed by the lines shown since, in their order.
pub proof fn law_lines_written_once_in_order(
    ctx: Ctx<'_>,
    events: Seq<Event>,
    start: Progress,
    partition: i32,
)
    requires
        start.buckets.dom().finite(),
        run(ctx, events, start) is Ok,
    ensures
        ({
            let end = run(ctx, events, start)->Ok_0;
            written_for(end.batches, partition) + waiting(end.after.buckets, partition) == waiting(
                start.buckets,
                partition,
            ) + lines_for(shown_lines(ctx, events, start), partition)
        }),
    decreases events.len(),
{
    if events.len() == 0 {
        let none = Seq::<JsonTree>::empty();
        let held = waiting(start.buckets, partition);
        assert(none + held =~= held + none);
    } else {
        let earlier = events.drop_last();
        let so_far = run(ctx, earlier, start)->Ok_0;
        let end = run(ctx, events, start)->Ok_0;
        law_lines_written_once_in_order(ctx, earlier, start, partition);
        lemma_run_buckets_finite(ctx, earlier, start);
        let written = written_for(so_far.batches, partition);
        let held = waiting(so_far.after.buckets, partition);
        let lines = shown_lines(ctx, events, start);
        let lines_before = shown_lines(ctx, earlier, start);
        match events.last() {
            Event::Flush => {
                let batches = flushed(so_far.after.buckets);
                lemma_written_join(so_far.batches, batches, partition);
                lemma_written_flushed(so_far.after.buckets, partition);
                assert(waiting(end.after.buckets, partition) =~= Seq::<JsonTree>::empty());
                assert(written + held + Seq::<JsonTree>::empty() =~= written + held);
            },
            Event::Item(item, reply) => {
                if !so_far.stop {
                    let next = item_step(ctx, item, reply, so_far.after)->Ok_0;
                    lemma_written_join(so_far.batches, next.batches, partition);
                    match added(ctx, events.last(), so_far) {
                        Some((owner, line)) => {
                            assert(lines.drop_last() =~= lines_before);
                            let full = waiting(so_far.after.buckets, owner).push(line);
                            let put = put_line(ctx, so_far.after.buckets, owner, line);
                            assert(next.batches == put.1 && next.after.buckets == put.0);
                            if put.1.len() > 0 {
                                assert(put.1 =~= as_batches(owner, full));
                                lemma_written_as_batches(owner, full, partition);
                            }
                            if owner == partition {
                                assert(written + held.push(line) =~= (written + held).push(line));
                                assert(written_for(end.batches, partition) + waiting(
                                    end.after.buckets,
                                    partition,
                                ) =~= written + held.push(line));
                                assert((waiting(start.buckets, partition) + lines_for(
                                    lines_before,
                                    partition,
                                )).push(line) =~= waiting(start.buckets, partition) + lines_for(
                                    lines,
                                    partition,
                                ));
                            } else {
                                assert(written_for(end.batches, partition) + waiting(
                                    end.after.buckets,
                                    partition,
                                ) =~= written + held);
                            }
                        },
                        None => {
                            assert(next.batches =~= Seq::<Batch>::empty());
                            assert(so_far.batches + next.batches =~= so_far.batches);
                        },
                    }
                }
            },
        }
    }
}

/// Whether every waiting bucket holds less than a full batch.
pub open spec fn buckets_below(buckets: Map<i32, Seq<JsonTree>>, limit: int) -> bool {
    forall|partition: i32| #[trigger] buckets.contains_key(partition) ==> buckets[partition].len()
        < limit
}

/// Whether every batch holds at least one message and no more than a limit.
pub open spec fn batches_within(batches: Seq<Batch>, limit: int) -> bool {
    forall|i: int|
        0 <= i < batches.len() ==> 1 <= (#[trigger] batches[i]).messages.len() <= limit
}

proof fn lemma_batches_of_within(
    partitions: Seq<i32>,
    buckets: Map<i32, Seq<JsonTree>>,
    limit: int,
)
    requires
        buckets_below(buckets, limit),
    ensures
        batches_within(batches_of(partitions, buckets), limit),
    decreases partitions.len(),
{
    if partitions.len() > 0 {
        lemma_batches_of_within(partitions.drop_last(), buckets, limit);
    }
}

/// Every batch line holds at least one message and no more than the batch limit.
pub proof fn law_batches_within_limit(ctx: Ctx<'_>, events: Seq<Event>, start: Progress)
    requires
        ctx.batch_limit >= 1,
        buckets_below(start.buckets, ctx.batch_limit as int),
        run(ctx, events, start) is Ok,
    ensures
        batches_within(run(ctx, events, start)->Ok_0.batches, ctx.batch_limit as int),
        buckets_below(run(ctx, events, start)->Ok_0.after.buckets, ctx.batch_limit as int),
    decreases events.len(),
{
    if events.len() > 0 {
        law_batches_within_limit(ctx, events.drop_last(), start);
        let so_far = run(ctx, events.drop_last(), start)->Ok_0;
        match events.last() {
            Event::Flush => {
                lemma_batches_of_within(
                    ascending_ids(so_far.after.buckets.dom()),
                    so_far.after.buckets,
                    ctx.batch_limit as int,
                );
            },
            Event::Item(item, reply) => {},
        }
    }
}

/// A message fills at most the bucket of its own partition. Where all buckets are below the limit
/// they stay so; at most one line is written, and that is the batch of the message's partition,
/// full, with the message last; and the buckets of the other partitions stay as they are.
pub proof fn law_full_bucket_is_written(
    ctx: Ctx<'_>,
    message: KafkaMessage,
    reply: DecodeReply,
    before: Progress,
)
    requires
        ctx.batch_limit >= 1,
        buckets_below(before.buckets, ctx.batch_limit as int),
        message_step(ctx, message, reply, before) is Ok,
    ensures
        ({
            let outcome = message_step(ctx, message, reply, before)->Ok_0;
            let after = outcome.after.buckets;
            &&& buckets_below(after, ctx.batch_limit as int)
            &&& outcome.batches.len() <= 1
            &&& batches_are_lines(ctx.topic@, outcome.batches) ==> split_lines(
                batch_bytes(ctx.topic@, outcome.batches),
            ) == (batch_texts(ctx.topic@, outcome.batches), Seq::<u8>::empty())
            &&& outcome.batches.len() == 1 ==> {
                let batch = outcome.batches[0];
                &&& batch.partition == message.partition
                &&& batch.messages.len() == ctx.batch_limit
                &&& decoded_line(ctx, message, reply) matches Ok(line) && batch.messages == waiting(
                    before.buckets,
                    message.partition,
                ).push(line)
            }
            &&& forall|partition: i32|
                partition != message.partition ==> #[trigger] after.contains_key(partition)
                    == before.buckets.contains_key(partition) && after[partition]
                    == before.buckets[partition]
        }),
{
    let outcome = message_step(ctx, message, reply, before)->Ok_0;
    if batches_are_lines(ctx.topic@, outcome.batches) {
        law_output_is_one_line_per_batch(ctx.topic@, outcome.batches);
    }
}

/// The number of messages of some events that are consumed: those that a snapshot does not
/// exclude, as long as the run has not stopped.
pub open spec fn consumed(ctx: Ctx<'_>, events: Seq<Event>, start: Progress) -> nat
    decreases events.len(),
{
    if events.len() == 0 {
        0
    } else {
        let before = consumed(ctx, events.drop_last(), start);
        match (run(ctx, events.drop_last(), start), events.last()) {
            (Ok(so_far), Event::Item(Item::Message(message), _)) => if !so_far.stop && !beyond(
                ctx,
                message.partition,
                message.offset,
            ) {
                before + 1
            } else {
                before
            },
            _ => before,
        }
    }
}

/// The first messages, as many as are to be skipped, are not shown; the later ones are, up to the
/// limit: no more lines are shown than the limit leaves room for behind those skipped.
pub proof fn law_skip_and_limit(ctx: Ctx<'_>, events: Seq<Event>, start: Progress)
    requires
        start.index == 0,
        ctx.limit > 0,
        run(ctx, events, start) is Ok,
    ensures
        ({
            let end = run(ctx, events, start)->Ok_0;
            let seen = consumed(ctx, events, start);
            let lines = shown_lines(ctx, events, start).len();
            &&& !end.stop ==> end.after.index == seen && seen < ctx.limit
            &&& seen <= ctx.limit
            &&& lines == (if seen > ctx.skip {
                seen - ctx.skip
            } else {
                0
            })
        }),
    decreases events.len(),
{
    if events.len() > 0 {
        law_skip_and_limit(ctx, events.drop_last(), start);
    }
}

/// A run that shows the given number of messages, if they come, shows no more than that number.
pub proof fn law_count_bounds_output(
    ctx: Ctx<'_>,
    count: u64,
    events: Seq<Event>,
    start: Progress,
)
    requires
        count > 0,
        ctx.limit == limit_of(Some(count), ctx.skip),
        start.index == 0,
        run(ctx, events, start) is Ok,
    ensures
        shown_lines(ctx, events, start).len() <= count,
{
    law_skip_and_limit(ctx, events, start);
}

/// A snapshot shows nothing of a record at or past the captured high watermark, and does not
/// count it.
pub proof fn law_snapshot_excludes_later_records(
    ctx: Ctx<'_>,
    message: KafkaMessage,
    reply: DecodeReply,
    before: Progress,
)
    requires
        ctx.snapshot,
        ctx.watermarks@.contains_key(message.partition),
        message.offset >= ctx.watermarks@[message.partition].1,
    ensures
        message_step(ctx, message, reply, before) matches Ok(outcome) && outcome.batches
            == Seq::<Batch>::empty() && outcome.after.buckets == before.buckets
            && outcome.after.index == before.index,
{
}

/// A run stops for these reasons only: the stream has ended, the limit is reached, or nothing
/// remains of a snapshot. What remains of a snapshot only shrinks, and a partition leaves it only
/// when its end is told or its last record, or a later one, has come.
pub proof fn law_stop_reasons(ctx: Ctx<'_>, item: Item, reply: DecodeReply, before: Progress)
    requires
        item_step(ctx, item, reply, before) is Ok,
    ensures
        ({
            let outcome = item_step(ctx, item, reply, before)->Ok_0;
            &&& outcome.stop ==> item is Ended || outcome.after.index >= ctx.limit || (ctx.snapshot
                && outcome.after.remaining.is_empty())
            &&& outcome.after.remaining.subset_of(before.remaining)
            &&& forall|partition: i32|
                before.remaining.contains(partition) && !outcome.after.remaining.contains(partition)
                    ==> ctx.snapshot && match item {
                    Item::PartitionEof(ended) => ended == partition,
                    Item::Message(message) => message.partition == partition
                        && ctx.watermarks@.contains_key(partition) && message.offset
                        >= ctx.watermarks@[partition].1 - 1,
                    _ => false,
                }
        }),
{
}

/// A message by the numbers. Its partition leaves what remains of a snapshot just where its high
/// watermark is known and the record lies no more than one below it, or further on. A record at or
/// past the watermark of a snapshot is not counted. Any other counts, and stops the run just where
/// it leaves nothing remaining or reaches the limit.
pub proof fn law_message_by_the_numbers(
    ctx: Ctx<'_>,
    message: KafkaMessage,
    reply: DecodeReply,
    before: Progress,
)
    requires
        message_step(ctx, message, reply, before) is Ok,
    ensures
        ({
            let outcome = message_step(ctx, message, reply, before)->Ok_0;
            let after = outcome.after;
            let captured = ctx.snapshot && ctx.watermarks@.contains_key(message.partition);
            let high = ctx.watermarks@[message.partition].1;
            &&& after.remaining == if captured && message.offset >= high - 1 {
                before.remaining.remove(message.partition)
            } else {
                before.remaining
            }
            &&& captured && message.offset >= high ==> after.index == before.index && (outcome.stop
                <==> after.remaining.is_empty())
            &&& captured && message.offset == high - 1 && after.remaining.is_empty()
                ==> outcome.stop && after.index == before.index
            &&& !(captured && message.offset >= high) && !(captured && message.offset == high - 1
                && after.remaining.is_empty()) ==> after.index == before.index + 1 && (outcome.stop
                <==> before.index + 1 >= ctx.limit)
        }),
{
}

/// A message is shown just where it is not excluded by a snapshot's high watermark and as many
/// messages as are to be skipped have been counted. One that is shown is put behind those of its
/// partition that wait, which are written when the batch is full and wait on when it is not; one
/// that is not shown changes nothing that waits, and needs no decoding.
pub proof fn law_shown_messages_wait_or_are_written(
    ctx: Ctx<'_>,
    message: KafkaMessage,
    reply: DecodeReply,
    before: Progress,
    other: i32,
)
    ensures
        ({
            let excluded = ctx.snapshot && ctx.watermarks@.contains_key(message.partition)
                && message.offset >= ctx.watermarks@[message.partition].1;
            let shown = !excluded && before.index >= ctx.skip;
            let held = if before.buckets.contains_key(message.partition) {
                before.buckets[message.partition]
            } else {
                Seq::<JsonTree>::empty()
            };
            &&& shows(ctx, message, before.index) <==> shown
            &&& message_step(ctx, message, reply, before) is Err <==> shown && decoded_line(
                ctx,
                message,
                reply,
            ) is Err
            &&& message_step(ctx, message, reply, before) matches Err(e) ==> decoded_line(
                ctx,
                message,
                reply,
            ) == Err::<JsonTree, Seq<char>>(e)
            &&& message_step(ctx, message, reply, before) matches Ok(outcome) ==> {
                let after = outcome.after.buckets;
                &&& !shown ==> after == before.buckets && outcome.batches.len() == 0
                &&& shown ==> {
                    let line = decoded_line(ctx, message, reply)->Ok_0;
                    &&& after.contains_key(message.partition)
                    &&& held.len() + 1 >= ctx.batch_limit ==> after[message.partition].len() == 0
                        && outcome.batches.len() == 1 && outcome.batches[0].partition
                        == message.partition && outcome.batches[0].messages == held.push(line)
                    &&& held.len() + 1 < ctx.batch_limit ==> after[message.partition] == held.push(
                        line,
                    ) && outcome.batches.len() == 0
                }
                &&& other != message.partition ==> after.contains_key(other)
                    == before.buckets.contains_key(other) && after[other] == before.buckets[other]
            }
        }),
{
}

/// The end of a partition takes it out of what remains of a snapshot, and stops the run just where
/// that leaves nothing; without a snapshot it changes nothing. The end of the stream stops the run
/// and changes nothing, and a failure of the stream is an error with its message.
pub proof fn law_other_items_by_kind(ctx: Ctx<'_>, item: Item, reply: DecodeReply, before: Progress)
    ensures
        match item {
            Item::Message(message) => item_step(ctx, item, reply, before) == message_step(
                ctx,
                message,
                reply,
                before,
            ),
            Item::PartitionEof(partition) => item_step(ctx, item, reply, before) matches Ok(outcome)
                && outcome.batches.len() == 0 && outcome.after.buckets == before.buckets
                && outcome.after.index == before.index && if ctx.snapshot {
                outcome.after.remaining == before.remaining.remove(partition) && (outcome.stop
                    <==> outcome.after.remaining.is_empty())
            } else {
                outcome.after.remaining == before.remaining && !outcome.stop
            },
            Item::Failed(text) => item_step(ctx, item, reply, before) == Err::<Outcome, Seq<char>>(
                text@,
            ),
            Item::Ended => item_step(ctx, item, reply, before) matches Ok(outcome) && outcome.stop
                && outcome.batches.len() == 0 && outcome.after == before,
        },
{
}

proof fn lemma_partition_seen(
    ctx: Ctx<'_>,
    events: Seq<Event>,
    start: Progress,
    partition: i32,
)
    requires
        run(ctx, events, start) is Ok,
        start.remaining.contains(partition),
        !run(ctx, events, start)->Ok_0.after.remaining.contains(partition),
    ensures
        exists|i: int|
            0 <= i < events.len() && (#[trigger] events[i] matches Event::Item(item, _)
                && shows_end(ctx.watermarks@, item, partition)),
    decreases events.len(),
{
    if events.len() > 0 {
        let earlier = events.drop_last();
        let so_far = run(ctx, earlier, start)->Ok_0;
        if !so_far.after.remaining.contains(partition) {
            lemma_partition_seen(ctx, earlier, start, partition);
            let i = choose|i: int|
                0 <= i < earlier.len() && (#[trigger] earlier[i] matches Event::Item(item, _)
                    && shows_end(ctx.watermarks@, item, partition));
            assert(events[i] == earlier[i]);
        } else {
            assert(events[events.len() - 1] == events.last());
            match events.last() {
                Event::Item(Item::Message(message), reply) => {
                    law_message_by_the_numbers(ctx, message, reply, so_far.after);
                },
                _ => {},
            }
        }
    }
}

proof fn lemma_stopped_snapshot(ctx: Ctx<'_>, events: Seq<Event>, start: Progress)
    requires
        run(ctx, events, start) matches Ok(end) && end.stop && end.after.index < ctx.limit,
        forall|i: int|
            0 <= i < events.len() ==> !(#[trigger] events[i] matches Event::Item(Item::Ended, _)),
    ensures
        ctx.snapshot,
        run(ctx, events, start)->Ok_0.after.remaining.is_empty(),
    decreases events.len(),
{
    if events.len() > 0 {
        let earlier = events.drop_last();
        let so_far = run(ctx, earlier, start)->Ok_0;
        assert forall|i: int| 0 <= i < earlier.len() implies !(
        #[trigger] earlier[i] matches Event::Item(Item::Ended, _)) by {
            assert(events[i] == earlier[i]);
        }
        if so_far.stop {
            lemma_stopped_snapshot(ctx, earlier, start);
        } else {
            assert(!(events[events.len() - 1] matches Event::Item(Item::Ended, _)));
            match events.last() {
                Event::Item(Item::Message(message), reply) => {
                    law_message_by_the_numbers(ctx, message, reply, so_far.after);
                },
                _ => {},
            }
        }
    }
}

/// A run that stops has read all: unless the stream ended or the limit was reached, it is a
/// snapshot, and every partition that remained at the start was read to its high watermark.
pub proof fn law_complete_snapshot_has_read_all(
    ctx: Ctx<'_>,
    events: Seq<Event>,
    start: Progress,
    partition: i32,
)
    requires
        run(ctx, events, start) matches Ok(end) && end.stop && end.after.index < ctx.limit,
        forall|i: int|
            0 <= i < events.len() ==> !(#[trigger] events[i] matches Event::Item(Item::Ended, _)),
    ensures
        ctx.snapshot,
        start.remaining.contains(partition) ==> exists|i: int|
            0 <= i < events.len() && (#[trigger] events[i] matches Event::Item(item, _)
                && shows_end(ctx.watermarks@, item, partition)),
{
    lemma_stopped_snapshot(ctx, events, start);
    if start.remaining.contains(partition) {
        lemma_partition_seen(ctx, events, start, partition);
    }
}

/// The line of a record in a built-in format tells its key, headers, value, offset, time and
/// distance to the high watermark, under these names and no others.
pub proof fn law_lines_tell_the_record(
    ctx: Ctx<'_>,
    message: KafkaMessage,
    reply: DecodeReply,
    name: Seq<char>,
)
    requires
        *ctx.format !is Wasm,
        decoded_line(ctx, message, reply) is Ok,
    ensures
        decoded_line(ctx, message, reply)->Ok_0 matches JsonTree::Object(line) && {
            let high = ctx.watermarks@[message.partition].1;
            let known = ctx.watermarks@.contains_key(message.partition);
            &&& line.contains_key(name) <==> name == "key"@ || name == "headers"@ || name
                == "value"@ || name == "offset"@ || name == "timestamp"@ || name == "ahead"@
            &&& line["key"@] == (match message.key {
                Some(bytes) => JsonTree::Str(lossy(bytes@)),
                None => JsonTree::Null,
            })
            &&& line["headers"@] == JsonTree::Object(header_fields(record_of(message).headers))
            &&& match message.payload {
                Some(bytes) => if *ctx.format is Json {
                    json_parse(bytes@) == Ok::<JsonTree, Seq<char>>(line["value"@])
                } else {
                    line["value"@] == JsonTree::Str(lossy(bytes@))
                },
                None => line["value"@] == JsonTree::Null,
            }
            &&& line["offset"@] == JsonTree::Str(decimal(message.offset as int))
            &&& line["timestamp"@] == JsonTree::Str(
                decimal(
                    match message.timestamp {
                        Some(time) => time as int,
                        None => 0,
                    },
                ),
            )
            &&& line["ahead"@] == JsonTree::Int(
                if known && message.offset < high {
                    high - message.offset
                } else {
                    0
                },
            )
        },
{
    let record = record_of(message);
    let fields = decoded(*ctx.format, record, reply)->Ok_0;
    law_record_is_shown(record, reply, name);
    law_host_fields_win(ctx.watermarks@, message, fields, name);
    law_host_fields_win(ctx.watermarks@, message, fields, "key"@);
    law_host_fields_win(ctx.watermarks@, message, fields, "headers"@);
    law_host_fields_win(ctx.watermarks@, message, fields, "value"@);
    lemma_host_names_differ("offset"@);
    lemma_host_names_differ("timestamp"@);
    lemma_host_names_differ("ahead"@);
}

/// What a component decoded stands in the line as it is, save for the offset, time and distance of
/// the record.
pub proof fn law_component_lines_tell_the_answer(
    ctx: Ctx<'_>,
    message: KafkaMessage,
    reply: DecodeReply,
)
    requires
        *ctx.format is Wasm,
    ensures
        decoded_line(ctx, message, reply) is Ok <==> plugin_decoded(reply) is Ok,
        plugin_decoded(reply) matches Ok(fields) ==> decoded_line(ctx, message, reply) == Ok::<
            JsonTree,
            Seq<char>,
        >(message_line(ctx.watermarks@, message, fields)),
        plugin_decoded(reply) matches Err(e) ==> decoded_line(ctx, message, reply) == Err::<
            JsonTree,
            Seq<char>,
        >(e),
{
}

/// A batch line tells its topic, its partition and its messages, all of them in order, and nothing
/// else.
pub proof fn law_batches_tell_their_messages(
    topic: Seq<char>,
    partition: i32,
    messages: Seq<JsonTree>,
    name: Seq<char>,
)
    ensures
        batch_tree(topic, partition, messages) matches JsonTree::Object(line) && {
            &&& line.contains_key(name) <==> name == "topic"@ || name == "partition"@ || name
                == "messages"@
            &&& line["topic"@] == JsonTree::Str(topic)
            &&& line["partition"@] == JsonTree::Int(partition as int)
            &&& line["messages"@] == JsonTree::Array(messages)
        },
{
    reveal_strlit("topic");
    reveal_strlit("partition");
    reveal_strlit("messages");
    assert("topic"@.len() == 5 && "partition"@.len() == 9 && "messages"@.len() == 8);
}

proof fn lemma_batches_of_listed(partitions: Seq<i32>, buckets: Map<i32, Seq<JsonTree>>)
    requires
        forall|i: int, j: int|
            0 <= i < j < partitions.len() ==> #[trigger] partitions[i] < #[trigger] partitions[j],
    ensures
        ({
            let batches = batches_of(partitions, buckets);
            &&& forall|i: int|
                0 <= i < batches.len() ==> partitions.contains((#[trigger] batches[i]).partition)
                    && batches[i].messages.len() > 0 && batches[i].messages == waiting(
                    buckets,
                    batches[i].partition,
                )
            &&& forall|i: int, j: int|
                0 <= i < j < batches.len() ==> (#[trigger] batches[i]).partition < (
                #[trigger] batches[j]).partition
            &&& forall|k: int|
                0 <= k < partitions.len() && waiting(buckets, #[trigger] partitions[k]).len() > 0
                    ==> exists|i: int|
                    0 <= i < batches.len() && (#[trigger] batches[i]).partition == partitions[k]
        }),
    decreases partitions.len(),
{
    if partitions.len() > 0 {
        let rest = partitions.drop_last();
        let last = partitions.last();
        let before = batches_of(rest, buckets);
        let own = as_batches(last, waiting(buckets, last));
        let batches = batches_of(partitions, buckets);
        lemma_batches_of_listed(rest, buckets);
        assert forall|i: int| 0 <= i < batches.len() implies partitions.contains(
            (#[trigger] batches[i]).partition,
        ) && batches[i].messages.len() > 0 && batches[i].messages == waiting(
            buckets,
            batches[i].partition,
        ) by {
            if i < before.len() {
                assert(batches[i] == before[i]);
                let k = choose|k: int| 0 <= k < rest.len() && rest[k] == before[i].partition;
                assert(partitions[k] == before[i].partition);
            } else {
                assert(batches[i] == own[i - before.len()]);
                assert(partitions[partitions.len() - 1] == last);
            }
        }
        assert forall|i: int, j: int| 0 <= i < j < batches.len() implies (
        #[trigger] batches[i]).partition < (#[trigger] batches[j]).partition by {
            if j < before.len() {
                assert(batches[i] == before[i] && batches[j] == before[j]);
            } else {
                assert(batches[j] == own[j - before.len()]);
                assert(i < before.len());
                assert(batches[i] == before[i]);
                let k = choose|k: int| 0 <= k < rest.len() && rest[k] == before[i].partition;
                assert(partitions[k] < partitions[partitions.len() - 1]);
            }
        }
        assert forall|k: int|
            0 <= k < partitions.len() && waiting(buckets, #[trigger] partitions[k]).len()
                > 0 implies exists|i: int|
            0 <= i < batches.len() && (#[trigger] batches[i]).partition == partitions[k] by {
            if k < rest.len() {
                assert(rest[k] == partitions[k]);
                let i = choose|i: int|
                    0 <= i < before.len() && (#[trigger] before[i]).partition == rest[k];
                assert(batches[i] == before[i]);
            } else {
                assert(own[0].partition == last);
                assert(batches[before.len() as int] == own[0]);
            }
        }
    }
}

/// When all buckets are written, each that holds messages is one batch with all of them, in
/// ascending order of the partitions; then all are empty, and none is gone.
pub proof fn law_flush_writes_all_in_order(buckets: Map<i32, Seq<JsonTree>>, partition: i32)
    requires
        buckets.dom().finite(),
    ensures
        forall|i: int|
            0 <= i < flushed(buckets).len() ==> buckets.contains_key(
                (#[trigger] flushed(buckets)[i]).partition,
            ) && flushed(buckets)[i].messages.len() > 0 && flushed(buckets)[i].messages
                == buckets[flushed(buckets)[i].partition],
        forall|i: int, j: int|
            0 <= i < j < flushed(buckets).len() ==> (#[trigger] flushed(buckets)[i]).partition < (
            #[trigger] flushed(buckets)[j]).partition,
        buckets.contains_key(partition) && buckets[partition].len() > 0 ==> exists|i: int|
            0 <= i < flushed(buckets).len() && (#[trigger] flushed(buckets)[i]).partition
                == partition,
        emptied(buckets).contains_key(partition) == buckets.contains_key(partition),
        buckets.contains_key(partition) ==> emptied(buckets)[partition].len() == 0,
{
    let ids = ascending_ids(buckets.dom());
    lemma_ascending_ids_list(buckets.dom());
    assert forall|i: int, j: int| 0 <= i < j < ids.len() implies #[trigger] ids[i]
        < #[trigger] ids[j] by {
        assert(id_order()(ids[i], ids[j]));
    }
    lemma_batches_of_listed(ids, buckets);
    assert forall|i: int| 0 <= i < flushed(buckets).len() implies buckets.contains_key(
        (#[trigger] flushed(buckets)[i]).partition,
    ) by {
        assert(ids.contains(flushed(buckets)[i].partition));
        assert(buckets.dom().contains(flushed(buckets)[i].partition));
    }
    if buckets.contains_key(partition) && buckets[partition].len() > 0 {
        assert(buckets.dom().contains(partition));
        assert(ids.contains(partition));
        let k = choose|k: int| 0 <= k < ids.len() && ids[k] == partition;
        assert(waiting(buckets, ids[k]).len() > 0);
        let batches = batches_of(ids, buckets);
        let i = choose|i: int|
            0 <= i < batches.len() && (#[trigger] batches[i]).partition == ids[k];
        assert(flushed(buckets)[i].partition == partition);
    }
}

/// What a run does next. An item that does not stop it is followed by asking for more that is
/// ready, up to a full batch in all; then, as when nothing is ready, all buckets are written and
/// the run waits. A stop, the deadline and a signal end it in their own ways, with all buckets
/// written.
pub proof fn law_phases(ctx: Ctx<'_>, stage: Stage, signal: Signal, reply: DecodeReply)
    requires
        advance(ctx, stage, signal, reply) is Ok,
    ensures
        ({
            let next = advance(ctx, stage, signal, reply)->Ok_0;
            let held = stage.progress;
            match signal {
                Signal::Item(item) => item_step(ctx, item, reply, held) matches Ok(outcome) && {
                    let left = match stage.phase {
                        Phase::Draining(left) => left - 1,
                        _ => ctx.batch_limit - 1,
                    };
                    &&& outcome.stop ==> next.stage.phase == Phase::Finished(
                        SnapshotStop::Complete,
                    )
                    &&& !outcome.stop && left > 0 ==> next.stage.phase == Phase::Draining(
                        left as usize,
                    )
                    &&& !outcome.stop && left <= 0 ==> next.stage.phase is Waiting
                    &&& next.stage.phase is Draining ==> next.stage.progress == outcome.after
                        && next.batches == outcome.batches
                    &&& next.stage.phase !is Draining ==> next.stage.progress.buckets == emptied(
                        outcome.after.buckets,
                    ) && next.batches == outcome.batches + flushed(outcome.after.buckets)
                    &&& next.stage.progress.remaining == outcome.after.remaining
                    &&& next.stage.progress.index == outcome.after.index
                },
                _ => {
                    &&& next.stage.phase == match signal {
                        Signal::Timeout => Phase::Finished(SnapshotStop::Timeout),
                        Signal::Sigint => Phase::Finished(SnapshotStop::Sigint),
                        Signal::Sigterm => Phase::Finished(SnapshotStop::Sigterm),
                        _ => Phase::Waiting,
                    }
                    &&& next.stage.progress.buckets == emptied(held.buckets)
                    &&& next.batches == flushed(held.buckets)
                    &&& next.stage.progress.remaining == held.remaining
                    &&& next.stage.progress.index == held.index
                },
            }
        }),
{
    assert(Seq::<Batch>::empty() + flushed(stage.progress.buckets) =~= flushed(
        stage.progress.buckets,
    ));
}

/// A session fails just where an item cannot be handled.
pub proof fn law_sessions_fail_with_an_item(
    ctx: Ctx<'_>,
    stage: Stage,
    signal: Signal,
    reply: DecodeReply,
)
    ensures
        match signal {
            Signal::Item(item) => match item_step(ctx, item, reply, stage.progress) {
                Ok(_) => advance(ctx, stage, signal, reply) is Ok,
                Err(e) => advance(ctx, stage, signal, reply) == Err::<Advance, Seq<char>>(e),
            },
            _ => advance(ctx, stage, signal, reply) is Ok,
        },
{
}

/// A run stops once as many messages are counted as are skipped and asked for, as far as they can
/// be counted; without a count it goes on as far as can be counted.
pub proof fn law_limit_is_skip_and_count(count: u64, skip: u64)
    ensures
        count + skip <= u64::MAX ==> limit_of(Some(count), skip) == count + skip,
        count + skip > u64::MAX ==> limit_of(Some(count), skip) == u64::MAX,
        limit_of(None, skip) == u64::MAX,
{
}

/// Reading starts where it is asked to; without being asked, a snapshot starts at the beginning
/// and any other run at the end.
pub proof fn law_start_defaults(from: Option<String>, snapshot: bool)
    ensures
        from matches Some(text) ==> start_asked(from, snapshot) == start_named(text@),
        from is None && snapshot ==> start_asked(from, snapshot) == Ok::<StartFrom, Seq<char>>(
            StartFrom::Beginning,
        ),
        from is None && !snapshot ==> start_asked(from, snapshot) == Ok::<StartFrom, Seq<char>>(
            StartFrom::End,
        ),
{
}

/// A consumer is in the group given and commits; a snapshot's is also told where partitions end.
/// Every setting that is not the consumer's own stays.
pub proof fn law_consumer_settings(
    entries: Map<Seq<char>, Seq<char>>,
    group: Seq<char>,
    snapshot: bool,
    name: Seq<char>,
)
    ensures
        ({
            let set = consumer_entries(entries, group, snapshot);
            &&& set.contains_key("group.id"@) && set["group.id"@] == group
            &&& set.contains_key("enable.auto.commit"@) && set["enable.auto.commit"@] == "true"@
            &&& set.contains_key("session.timeout.ms"@) && set["session.timeout.ms"@] == "30000"@
            &&& set.contains_key("heartbeat.interval.ms"@) && set["heartbeat.interval.ms"@]
                == "1000"@
            &&& set.contains_key("auto.offset.reset"@) && set["auto.offset.reset"@] == "earliest"@
            &&& snapshot ==> set.contains_key("enable.partition.eof"@)
                && set["enable.partition.eof"@] == "true"@
            &&& name != "group.id"@ && name != "enable.auto.commit"@ && name
                != "session.timeout.ms"@ && name != "heartbeat.interval.ms"@ && name
                != "auto.offset.reset"@ && (name != "enable.partition.eof"@ || !snapshot) ==> {
                &&& set.contains_key(name) == entries.contains_key(name)
                &&& set[name] == entries[name]
            }
        }),
{
    reveal_strlit("group.id");
    reveal_strlit("enable.auto.commit");
    reveal_strlit("session.timeout.ms");
    reveal_strlit("heartbeat.interval.ms");
    reveal_strlit("auto.offset.reset");
    reveal_strlit("enable.partition.eof");
    assert("group.id"@.len() == 8 && "enable.auto.commit"@.len() == 18
        && "session.timeout.ms"@.len() == 18 && "heartbeat.interval.ms"@.len() == 21
        && "auto.offset.reset"@.len() == 17 && "enable.partition.eof"@.len() == 20);
    assert("enable.auto.commit"@[0] != "session.timeout.ms"@[0]);
}

} // verus!
