//! Producing records: input lines become batches, and batches become records.

use vstd::prelude::*;
use vstd::slice::slice_to_vec;
use vstd::string::*;
use vstd::utf8::encode_utf8;

use crate::commands::consume::batch_tree;
use crate::commands::{full_headers, outgoing_view, Outgoing, OutgoingRecord};
use crate::error::Error;
use crate::formatter::{
    builtin_encoded, copy_bytes, encoded, headers_view, slice_view, Encoded, EncodedRecord,
    Formatter,
};
use crate::json::{
    is_line, json_parse, json_text, lemma_trees, survives, trees, Json, JsonTree,
};
use crate::order::texts;
use crate::text::{
    decimal, decimal_u64, is_blank, is_white, law_split_at_the_first, lemma_trimmed_blank,
    same_text, split_first, split_once, trim, trimmed,
};
use crate::wasm_formatter::{EncodeReply, WasmFormatter};

verus! {

/// What the `produce` command is asked.
#[derive(Debug)]
pub struct Args {
    /// message value format: json, raw, or path to a .wasm component
    pub data_format: String,
    /// the file that is read instead of the standard input
    pub input: Option<String>,
    /// delay in milliseconds after each batch line
    pub wait: u64,
    /// headers added to every message, each as key:value
    pub header: Vec<String>,
    /// compression algorithm
    pub compression: Option<String>,
}

/// The header that a text of the form `key:value` writes, if it is one.
pub open spec fn static_header(raw: Seq<char>) -> Option<(Seq<char>, Seq<u8>)> {
    match split_first(raw, ':') {
        Some((name, value)) => if trimmed(name).len() > 0 {
            Some((trimmed(name), encode_utf8(trimmed(value))))
        } else {
            None
        },
        None => None,
    }
}

/// The headers that some texts write, or what is wrong with the first that writes none.
pub open spec fn static_headers(raw: Seq<Seq<char>>) -> Result<
    Seq<(Seq<char>, Seq<u8>)>,
    Seq<char>,
>
    decreases raw.len(),
{
    if raw.len() == 0 {
        Ok(Seq::empty())
    } else {
        match static_headers(raw.drop_last()) {
            Err(e) => Err(e),
            Ok(headers) => match static_header(raw.last()) {
                Some(header) => Ok(headers.push(header)),
                None => Err(
                    "Invalid header \""@ + raw.last() + "\"; expected key:value"@,
                ),
            },
        }
    }
}

proof fn lemma_static_headers_prefix(raw: Seq<Seq<char>>, k: int)
    requires
        0 <= k <= raw.len(),
        static_headers(raw.take(k)) is Err,
    ensures
        static_headers(raw) == static_headers(raw.take(k)),
    decreases raw.len(),
{
    if k == raw.len() {
        assert(raw.take(k) =~= raw);
    } else {
        assert(raw.drop_last().take(k) =~= raw.take(k));
        lemma_static_headers_prefix(raw.drop_last(), k);
    }
}

/// Reads the headers that are added to every message.
pub fn parse_static_headers(headers: &Vec<String>) -> (r: Result<Vec<(String, Vec<u8>)>, Error>)
    ensures
        match r {
            Ok(list) => static_headers(texts(headers@)) == Ok::<
                Seq<(Seq<char>, Seq<u8>)>,
                Seq<char>,
            >(headers_view(list@)),
            Err(e) => static_headers(texts(headers@)) == Err::<
                Seq<(Seq<char>, Seq<u8>)>,
                Seq<char>,
            >(e@),
        },
{
    let mut out: Vec<(String, Vec<u8>)> = Vec::new();
    let mut i: usize = 0;
    let ghost raw = texts(headers@);
    proof {
        assert(raw.take(0) =~= Seq::empty());
        assert(headers_view(out@) =~= Seq::empty());
    }
    while i < headers.len()
        invariant
            i <= headers@.len(),
            raw == texts(headers@),
            static_headers(raw.take(i as int)) == Ok::<Seq<(Seq<char>, Seq<u8>)>, Seq<char>>(
                headers_view(out@),
            ),
        decreases headers.len() - i,
    {
        let text = headers[i].as_str();
        proof {
            assert(raw.take(i + 1).drop_last() =~= raw.take(i as int));
            assert(raw.take(i + 1).last() == text@);
        }
        let header = match split_once(text, ':') {
            Some((name, value)) => {
                let name = trim(name);
                if name.is_empty() {
                    None
                } else {
                    Some((name.to_owned(), slice_to_vec(trim(value).as_bytes())))
                }
            },
            None => None,
        };
        match header {
            Some((name, value)) => {
                let ghost before = out@;
                out.push((name, value));
                proof {
                    assert(headers_view(out@) =~= headers_view(before).push((name@, value@)));
                }
            },
            None => {
                let mut message = "Invalid header \"".to_owned();
                message.append(text);
                message.append("\"; expected key:value");
                proof {
                    lemma_static_headers_prefix(raw, i + 1);
                }
                return Err(Error::new(message));
            },
        }
        i += 1;
    }
    proof {
        assert(raw.take(raw.len() as int) =~= raw);
    }
    Ok(out)
}

/// A batch of messages for a topic.
#[derive(Debug)]
pub struct Batch {
    pub topic: String,
    pub partition: Option<i32>,
    pub messages: Vec<EncodedRecord>,
}

/// What a batch says.
#[verifier::ext_equal]
pub struct BatchContent {
    pub topic: Seq<char>,
    pub partition: Option<i32>,
    pub messages: Seq<Encoded>,
}

/// What some encoded records say.
pub open spec fn encoded_view(records: Seq<EncodedRecord>) -> Seq<Encoded> {
    Seq::new(records.len(), |i: int| records[i]@)
}

impl View for Batch {
    type V = BatchContent;

    open spec fn view(&self) -> BatchContent {
        BatchContent {
            topic: self.topic@,
            partition: self.partition,
            messages: encoded_view(self.messages@),
        }
    }
}

/// A batch line before its messages are encoded.
#[verifier::ext_equal]
pub struct Outline {
    pub topic: Seq<char>,
    pub partition: Option<i32>,
    pub messages: Seq<JsonTree>,
}

/// The topic of a batch line, if it names one.
pub open spec fn named_topic(line: Map<Seq<char>, JsonTree>) -> Option<Seq<char>> {
    if line.contains_key("topic"@) {
        match line["topic"@] {
            JsonTree::Str(topic) => Some(topic),
            _ => None,
        }
    } else {
        None
    }
}

/// The partition that a batch line pins its messages to, if any, or what is wrong with it.
pub open spec fn pinned_partition(line: Map<Seq<char>, JsonTree>) -> Result<
    Option<i32>,
    Seq<char>,
> {
    if line.contains_key("partition"@) {
        match line["partition"@] {
            JsonTree::Null => Ok(None),
            JsonTree::Int(n) => if n < i64::MIN || n > i64::MAX {
                Err("`partition` must be an integer"@)
            } else if n < i32::MIN || n > i32::MAX {
                Err("`partition` must be between -2147483648 and 2147483647"@)
            } else {
                Ok(Some(n as i32))
            },
            _ => Err("`partition` must be an integer"@),
        }
    } else {
        Ok(None)
    }
}

/// The messages of a batch line, if it has a list of them.
pub open spec fn listed_messages(line: Map<Seq<char>, JsonTree>) -> Option<Seq<JsonTree>> {
    if line.contains_key("messages"@) {
        match line["messages"@] {
            JsonTree::Array(messages) => Some(messages),
            _ => None,
        }
    } else {
        None
    }
}

/// A batch line, or what is wrong with it.
pub open spec fn outline_of(line: JsonTree) -> Result<Outline, Seq<char>> {
    match line {
        JsonTree::Object(fields) => match named_topic(fields) {
            None => Err("batch line is missing the required string field `topic`"@),
            Some(topic) => match pinned_partition(fields) {
                Err(e) => Err(e),
                Ok(partition) => match listed_messages(fields) {
                    None => Err("batch line is missing the required array field `messages`"@),
                    Some(messages) => Ok(Outline { topic, partition, messages }),
                },
            },
        },
        _ => Err("batch line must be a JSON object"@),
    }
}

/// A batch line whose messages have not been encoded.
struct Head<'a> {
    topic: &'a str,
    partition: Option<i32>,
    messages: &'a Vec<Json>,
}

fn read_head(line: &Json) -> (r: Result<Head<'_>, Error>)
    ensures
        match r {
            Ok(head) => outline_of(line@) == Ok::<Outline, Seq<char>>(
                Outline {
                    topic: head.topic@,
                    partition: head.partition,
                    messages: trees(head.messages@),
                },
            ),
            Err(e) => outline_of(line@) == Err::<Outline, Seq<char>>(e@),
        },
{
    let fields = match line {
        Json::Object(fields) => fields,
        _ => {
            return Err(Error::text("batch line must be a JSON object"));
        },
    };
    let topic = match fields.get("topic") {
        Some(Json::Str(topic)) => topic.as_str(),
        _ => {
            return Err(
                Error::text("batch line is missing the required string field `topic`"),
            );
        },
    };
    let number: Option<i64> = match fields.get("partition") {
        None => None,
        Some(Json::Null) => None,
        Some(Json::Negative(n)) => Some(*n),
        Some(Json::Unsigned(n)) => if *n <= i64::MAX as u64 {
            Some(*n as i64)
        } else {
            return Err(Error::text("`partition` must be an integer"));
        },
        Some(_) => {
            return Err(Error::text("`partition` must be an integer"));
        },
    };
    let partition: Option<i32> = match number {
        None => None,
        Some(n) => if n < i32::MIN as i64 || n > i32::MAX as i64 {
            return Err(Error::text("`partition` must be between -2147483648 and 2147483647"));
        } else {
            Some(n as i32)
        },
    };
    let messages = match fields.get("messages") {
        Some(Json::Array(messages)) => messages,
        _ => {
            return Err(
                Error::text("batch line is missing the required array field `messages`"),
            );
        },
    };
    Ok(Head { topic, partition, messages })
}

/// A component's answer for a message of a batch.
pub open spec fn reply_for(replies: Seq<EncodeReply>, i: int) -> EncodeReply {
    if 0 <= i < replies.len() {
        replies[i]
    } else {
        EncodeReply::NotAsked
    }
}

/// The encoded messages of a batch, or what is wrong with the first that cannot be encoded.
pub open spec fn messages_encoded(
    format: Formatter,
    messages: Seq<JsonTree>,
    replies: Seq<EncodeReply>,
) -> Result<Seq<Encoded>, Seq<char>>
    decreases messages.len(),
{
    if messages.len() == 0 {
        Ok(Seq::empty())
    } else {
        let i = messages.len() - 1;
        match messages_encoded(format, messages.drop_last(), replies) {
            Err(e) => Err(e),
            Ok(records) => match encoded(format, messages[i], reply_for(replies, i)) {
                Ok(record) => Ok(records.push(record)),
                Err(e) => Err("message "@ + decimal(i) + ": "@ + e),
            },
        }
    }
}

/// The batch of an input line, or what is wrong with it.
pub open spec fn batch_of(line: JsonTree, format: Formatter, replies: Seq<EncodeReply>) -> Result<
    BatchContent,
    Seq<char>,
> {
    match outline_of(line) {
        Err(e) => Err(e),
        Ok(outline) => match messages_encoded(format, outline.messages, replies) {
            Err(e) => Err(e),
            Ok(messages) => Ok(
                BatchContent { topic: outline.topic, partition: outline.partition, messages },
            ),
        },
    }
}

/// Whether a component has answered for every message of a batch, up to the first that it did not
/// encode.
pub open spec fn answered(line: JsonTree, replies: Seq<EncodeReply>) -> bool {
    match outline_of(line) {
        Err(_) => true,
        Ok(outline) => forall|i: int|
            0 <= i < outline.messages.len() && all_records(replies, i) ==> #[trigger] reply_for(
                replies,
                i,
            ) !is NotAsked,
    }
}

/// Whether the first answers of a component are records.
pub open spec fn all_records(replies: Seq<EncodeReply>, n: int) -> bool {
    forall|j: int| 0 <= j < n ==> #[trigger] reply_for(replies, j) is Record
}

proof fn lemma_messages_prefix(
    format: Formatter,
    messages: Seq<JsonTree>,
    replies: Seq<EncodeReply>,
    k: int,
)
    requires
        0 <= k <= messages.len(),
        messages_encoded(format, messages.take(k), replies) is Err,
    ensures
        messages_encoded(format, messages, replies) == messages_encoded(
            format,
            messages.take(k),
            replies,
        ),
    decreases messages.len(),
{
    if k == messages.len() {
        assert(messages.take(k) =~= messages);
    } else {
        assert(messages.drop_last().take(k) =~= messages.take(k));
        lemma_messages_prefix(format, messages.drop_last(), replies, k);
    }
}

/// Reads the batch of an input line. A component formatter's answers for the messages are handed
/// in.
pub fn parse_batch(line: &Json, format: &Formatter, replies: &Vec<EncodeReply>) -> (r: Result<
    Batch,
    Error,
>)
    requires
        format is Wasm ==> answered(line@, replies@),
    ensures
        match r {
            Ok(batch) => batch_of(line@, *format, replies@) == Ok::<BatchContent, Seq<char>>(batch@),
            Err(e) => batch_of(line@, *format, replies@) == Err::<BatchContent, Seq<char>>(e@),
        },
{
    let head = match read_head(line) {
        Ok(head) => head,
        Err(e) => {
            return Err(e);
        },
    };
    let ghost all = trees(head.messages@);
    let mut messages: Vec<EncodedRecord> = Vec::new();
    let mut i: usize = 0;
    proof {
        lemma_trees(head.messages@);
        assert(all.take(0) =~= Seq::empty());
        assert(encoded_view(messages@) =~= Seq::empty());
    }
    while i < head.messages.len()
        invariant
            i <= head.messages@.len(),
            all == trees(head.messages@),
            all.len() == head.messages@.len(),
            forall|j: int| 0 <= j < all.len() ==> #[trigger] all[j] == head.messages@[j]@,
            outline_of(line@) matches Ok(outline) && outline.messages == all,
            format is Wasm ==> answered(line@, replies@) && all_records(replies@, i as int),
            messages_encoded(*format, all.take(i as int), replies@) == Ok::<
                Seq<Encoded>,
                Seq<char>,
            >(encoded_view(messages@)),
        decreases head.messages.len() - i,
    {
        proof {
            assert(all.take(i + 1).drop_last() =~= all.take(i as int));
            assert(all.take(i + 1)[i as int] == all[i as int]);
            assert(format is Wasm ==> reply_for(replies@, i as int) !is NotAsked);
        }
        let absent = EncodeReply::NotAsked;
        let reply = if i < replies.len() {
            &replies[i]
        } else {
            &absent
        };
        match format.encode(&head.messages[i], reply) {
            Ok(record) => {
                let ghost before = messages@;
                messages.push(record);
                proof {
                    assert(encoded_view(messages@) =~= encoded_view(before).push(record@));
                }
            },
            Err(e) => {
                let mut message = "message ".to_owned();
                message.append(decimal_u64(i as u64).as_str());
                message.append(": ");
                message.append(e.message.as_str());
                proof {
                    lemma_messages_prefix(*format, all, replies@, i + 1);
                }
                return Err(Error::new(message));
            },
        }
        i += 1;
    }
    proof {
        assert(all.take(all.len() as int) =~= all);
    }
    Ok(Batch { topic: head.topic.to_owned(), partition: head.partition, messages })
}

/// What a component is asked for a batch: to encode each message, for the topic.
#[derive(Debug)]
pub struct EncodeRequests {
    pub topic: String,
    pub messages: Vec<String>,
}

/// The JSON texts of some messages.
pub open spec fn message_texts(messages: Seq<JsonTree>) -> Seq<Seq<char>> {
    Seq::new(messages.len(), |i: int| json_text(messages[i]))
}

/// What a component is asked for the batch of an input line.
pub fn encode_requests(plugin: &WasmFormatter, line: &Json) -> (r: Result<EncodeRequests, Error>)
    ensures
        match r {
            Ok(requests) => outline_of(line@) matches Ok(outline) && requests.topic@
                == outline.topic && texts(requests.messages@) == message_texts(outline.messages),
            Err(e) => outline_of(line@) == Err::<Outline, Seq<char>>(e@),
        },
{
    let head = match read_head(line) {
        Ok(head) => head,
        Err(e) => {
            return Err(e);
        },
    };
    let mut messages: Vec<String> = Vec::new();
    let mut i: usize = 0;
    while i < head.messages.len()
        invariant
            i <= head.messages@.len(),
            messages@.len() == i,
            forall|j: int|
                0 <= j < i ==> (#[trigger] messages@[j])@ == json_text(head.messages@[j]@),
        decreases head.messages.len() - i,
    {
        messages.push(plugin.encode_request(&head.messages[i]));
        i += 1;
    }
    proof {
        lemma_trees(head.messages@);
        assert(texts(messages@) =~= message_texts(trees(head.messages@)));
    }
    Ok(EncodeRequests { topic: head.topic.to_owned(), messages })
}

/// The value of an input line; none where the line is blank, and an error that tells the line
/// where it is not JSON.
pub open spec fn line_value(line: Seq<char>, number: usize) -> Result<Option<JsonTree>, Seq<char>> {
    if trimmed(line).len() == 0 {
        Ok(None)
    } else {
        match json_parse(encode_utf8(line)) {
            Ok(tree) => Ok(Some(tree)),
            Err(e) => Err("Invalid JSON on line "@ + decimal(number as int) + ": "@ + e),
        }
    }
}

/// Reads an input line.
pub fn read_line(line: &str, number: usize) -> (r: Result<Option<Json>, Error>)
    ensures
        match r {
            Ok(Some(json)) => line_value(line@, number) == Ok::<Option<JsonTree>, Seq<char>>(
                Some(json@),
            ),
            Ok(None) => line_value(line@, number) == Ok::<Option<JsonTree>, Seq<char>>(None),
            Err(e) => line_value(line@, number) == Err::<Option<JsonTree>, Seq<char>>(e@),
        },
{
    if is_blank(line) {
        return Ok(None);
    }
    match Json::parse(line.as_bytes()) {
        Ok(json) => Ok(Some(json)),
        Err(e) => {
            let mut message = "Invalid JSON on line ".to_owned();
            message.append(decimal_u64(number as u64).as_str());
            message.append(": ");
            message.append(e.message.as_str());
            Err(Error::new(message))
        },
    }
}

/// A record with a payload, or with none, for a topic. No payload differs from an empty one.
pub fn future_record(topic: &str, value: Option<&[u8]>) -> (r: OutgoingRecord)
    ensures
        r@ == (Outgoing {
            topic: topic@,
            payload: slice_view(value),
            key: None,
            headers: None,
            partition: None,
        }),
{
    OutgoingRecord {
        topic: topic.to_owned(),
        payload: copy_bytes(value),
        key: None,
        headers: None,
        partition: None,
    }
}

/// Whether a header with a name is in a list.
pub open spec fn has_header(headers: Seq<(Seq<char>, Seq<u8>)>, name: Seq<char>) -> bool {
    exists|i: int| 0 <= i < headers.len() && (#[trigger] headers[i]).0 == name
}

/// The headers of a message with the static ones behind; of a name that is already there no
/// further header is added.
pub open spec fn merged(
    headers: Seq<(Seq<char>, Seq<u8>)>,
    added: Seq<(Seq<char>, Seq<u8>)>,
) -> Seq<(Seq<char>, Seq<u8>)>
    decreases added.len(),
{
    if added.len() == 0 {
        headers
    } else {
        let before = merged(headers, added.drop_last());
        if has_header(before, added.last().0) {
            before
        } else {
            before.push(added.last())
        }
    }
}

/// Headers as a record carries them: each has a value; an empty list is none at all.
pub open spec fn carried(headers: Seq<(Seq<char>, Seq<u8>)>) -> Option<
    Seq<(Seq<char>, Option<Seq<u8>>)>,
> {
    if headers.len() == 0 {
        None
    } else {
        Some(Seq::new(headers.len(), |i: int| (headers[i].0, Some(headers[i].1))))
    }
}

/// The partition of a record: the one that the batch pins, else a nonnegative one that the
/// formatter asks for, else none.
pub open spec fn chosen_partition(pinned: Option<i32>, asked: int) -> Option<i32> {
    match pinned {
        Some(partition) => Some(partition),
        None => if asked >= 0 {
            Some(asked as i32)
        } else {
            None
        },
    }
}

/// The record of a message of a batch.
pub open spec fn record_for(
    topic: Seq<char>,
    pinned: Option<i32>,
    message: Encoded,
    added: Seq<(Seq<char>, Seq<u8>)>,
) -> Outgoing {
    Outgoing {
        topic,
        payload: message.value,
        key: message.key,
        headers: carried(merged(message.headers, added)),
        partition: chosen_partition(pinned, message.partition),
    }
}

fn find_header(headers: &Vec<(String, Option<Vec<u8>>)>, name: &str) -> (r: bool)
    ensures
        r == (exists|i: int| 0 <= i < headers@.len() && (#[trigger] headers@[i]).0@ == name@),
{
    let mut i: usize = 0;
    while i < headers.len()
        invariant
            i <= headers@.len(),
            forall|j: int| 0 <= j < i ==> (#[trigger] headers@[j]).0@ != name@,
        decreases headers.len() - i,
    {
        if same_text(headers[i].0.as_str(), name) {
            return true;
        }
        i += 1;
    }
    false
}

/// The values of headers that all have one.
spec fn with_values(headers: Seq<(Seq<char>, Seq<u8>)>) -> Seq<(Seq<char>, Option<Seq<u8>>)> {
    Seq::new(headers.len(), |i: int| (headers[i].0, Some(headers[i].1)))
}

fn merge_headers(headers: &Vec<(String, Vec<u8>)>, added: &Vec<(String, Vec<u8>)>) -> (r: Option<
    Vec<(String, Option<Vec<u8>>)>,
>)
    ensures
        match r {
            Some(list) => carried(merged(headers_view(headers@), headers_view(added@))) == Some(
                full_headers(list@),
            ),
            None => carried(merged(headers_view(headers@), headers_view(added@))) is None,
        },
{
    let mut out: Vec<(String, Option<Vec<u8>>)> = Vec::new();
    let ghost own = headers_view(headers@);
    let ghost more = headers_view(added@);
    let mut i: usize = 0;
    proof {
        assert(full_headers(out@) =~= with_values(own.take(0)));
    }
    while i < headers.len()
        invariant
            i <= headers@.len(),
            own == headers_view(headers@),
            full_headers(out@) == with_values(own.take(i as int)),
        decreases headers.len() - i,
    {
        let name = headers[i].0.clone();
        let value = slice_to_vec(headers[i].1.as_slice());
        let ghost before = out@;
        out.push((name, Some(value)));
        proof {
            assert(full_headers(out@) =~= full_headers(before).push((name@, Some(value@))));
            assert(full_headers(out@) =~= with_values(own.take(i + 1)));
        }
        i += 1;
    }
    let mut k: usize = 0;
    proof {
        assert(own.take(own.len() as int) =~= own);
        assert(more.take(0) =~= Seq::empty());
    }
    while k < added.len()
        invariant
            k <= added@.len(),
            more == headers_view(added@),
            full_headers(out@) == with_values(merged(own, more.take(k as int))),
        decreases added.len() - k,
    {
        let ghost list = merged(own, more.take(k as int));
        proof {
            assert(more.take(k + 1).drop_last() =~= more.take(k as int));
            assert(more.take(k + 1).last() == more[k as int]);
            assert(full_headers(out@).len() == with_values(list).len());
            assert forall|j: int| 0 <= j < list.len() implies (#[trigger] list[j]).0
                == out@[j].0@ by {
                assert(full_headers(out@)[j] == with_values(list)[j]);
                assert(with_values(list)[j].0 == list[j].0);
                assert(full_headers(out@)[j].0 == out@[j].0@);
            }
        }
        let name = added[k].0.as_str();
        let there = find_header(&out, name);
        proof {
            if there {
                let j = choose|j: int| 0 <= j < out@.len() && (#[trigger] out@[j]).0@ == name@;
                assert(list[j].0 == name@);
            }
            if has_header(list, name@) {
                let j = choose|j: int| 0 <= j < list.len() && (#[trigger] list[j]).0 == name@;
                assert(out@[j].0@ == name@);
            }
        }
        if !there {
            let value = slice_to_vec(added[k].1.as_slice());
            let ghost before = out@;
            let owned = name.to_owned();
            out.push((owned, Some(value)));
            proof {
                assert(full_headers(out@) =~= full_headers(before).push((name@, Some(value@))));
                assert(full_headers(out@) =~= with_values(list.push(more[k as int])));
            }
        }
        k += 1;
    }
    proof {
        assert(more.take(more.len() as int) =~= more);
        let all = merged(own, more);
        assert(full_headers(out@).len() == all.len());
        if all.len() > 0 {
            assert(with_values(all) =~= carried(all)->Some_0);
        }
    }
    if out.is_empty() {
        None
    } else {
        Some(out)
    }
}

/// The records of a batch.
pub open spec fn records_for(batch: BatchContent, added: Seq<(Seq<char>, Seq<u8>)>) -> Seq<
    Outgoing,
> {
    Seq::new(
        batch.messages.len(),
        |i: int| record_for(batch.topic, batch.partition, batch.messages[i], added),
    )
}

/// The records that are sent for a batch, one for each message, in their order.
pub fn batch_records(batch: &Batch, static_headers: &Vec<(String, Vec<u8>)>) -> (r: Vec<
    OutgoingRecord,
>)
    ensures
        outgoing_view(r@) == records_for(batch@, headers_view(static_headers@)),
{
    let mut out: Vec<OutgoingRecord> = Vec::new();
    let mut i: usize = 0;
    let ghost wanted = records_for(batch@, headers_view(static_headers@));
    while i < batch.messages.len()
        invariant
            i <= batch.messages@.len(),
            wanted == records_for(batch@, headers_view(static_headers@)),
            outgoing_view(out@) == wanted.take(i as int),
        decreases batch.messages.len() - i,
    {
        let message = &batch.messages[i];
        let value = match &message.value {
            Some(bytes) => Some(bytes.as_slice()),
            None => None,
        };
        let mut record = future_record(batch.topic.as_str(), value);
        if let Some(key) = &message.key {
            record.key = Some(slice_to_vec(key.as_slice()));
        }
        record.partition = match batch.partition {
            Some(partition) => Some(partition),
            None => if message.partition >= 0 {
                Some(message.partition)
            } else {
                None
            },
        };
        record.headers = merge_headers(&message.headers, static_headers);
        let ghost before = out@;
        out.push(record);
        proof {
            assert(record@ =~= wanted[i as int]);
            assert(outgoing_view(out@) =~= outgoing_view(before).push(record@));
            assert(outgoing_view(out@) =~= wanted.take(i + 1));
        }
        i += 1;
    }
    proof {
        assert(wanted.take(wanted.len() as int) =~= wanted);
    }
    out
}

/// The records of an input line, or an error that tells the line.
pub open spec fn line_records(
    line: JsonTree,
    number: usize,
    format: Formatter,
    replies: Seq<EncodeReply>,
    added: Seq<(Seq<char>, Seq<u8>)>,
) -> Result<Seq<Outgoing>, Seq<char>> {
    match batch_of(line, format, replies) {
        Ok(batch) => Ok(records_for(batch, added)),
        Err(e) => Err("line "@ + decimal(number as int) + ": "@ + e),
    }
}

/// The records of an input line, in the order in which they are sent. A component formatter's
/// answers for the messages are handed in.
pub fn produce_line(
    line: &Json,
    number: usize,
    format: &Formatter,
    replies: &Vec<EncodeReply>,
    static_headers: &Vec<(String, Vec<u8>)>,
) -> (r: Result<Vec<OutgoingRecord>, Error>)
    requires
        format is Wasm ==> answered(line@, replies@),
    ensures
        match r {
            Ok(records) => line_records(
                line@,
                number,
                *format,
                replies@,
                headers_view(static_headers@),
            ) == Ok::<Seq<Outgoing>, Seq<char>>(outgoing_view(records@)),
            Err(e) => line_records(
                line@,
                number,
                *format,
                replies@,
                headers_view(static_headers@),
            ) == Err::<Seq<Outgoing>, Seq<char>>(e@),
        },
{
    match parse_batch(line, format, replies) {
        Ok(batch) => Ok(batch_records(&batch, static_headers)),
        Err(e) => {
            let mut message = "line ".to_owned();
            message.append(decimal_u64(number as u64).as_str());
            message.append(": ");
            message.append(e.message.as_str());
            Err(Error::new(message))
        },
    }
}

/// A message's own headers take precedence over static ones: they stay, unchanged and first, and a
/// static header is added only under a name that no header before it has.
pub proof fn law_message_headers_win(
    headers: Seq<(Seq<char>, Seq<u8>)>,
    added: Seq<(Seq<char>, Seq<u8>)>,
)
    ensures
        merged(headers, added).len() >= headers.len(),
        merged(headers, added).take(headers.len() as int) == headers,
        forall|i: int|
            headers.len() <= i < merged(headers, added).len() ==> !has_header(
                merged(headers, added).take(i),
                (#[trigger] merged(headers, added)[i]).0,
            ) && added.contains(merged(headers, added)[i]),
        forall|i: int|
            0 <= i < added.len() ==> has_header(
                merged(headers, added),
                (#[trigger] added[i]).0,
            ),
    decreases added.len(),
{
    let all = merged(headers, added);
    if added.len() == 0 {
        assert(all.take(headers.len() as int) =~= headers);
    } else {
        let rest = added.drop_last();
        let before = merged(headers, rest);
        law_message_headers_win(headers, rest);
        assert(all.take(headers.len() as int) =~= before.take(headers.len() as int));
        assert forall|i: int| headers.len() <= i < all.len() implies !has_header(
            all.take(i),
            (#[trigger] all[i]).0,
        ) && added.contains(all[i]) by {
            assert(all.take(i) =~= before.take(i));
            if i < before.len() {
                assert(all[i] == before[i]);
                let k = choose|k: int| 0 <= k < rest.len() && rest[k] == before[i];
                assert(added[k] == all[i]);
            } else {
                assert(before.take(i) =~= before);
                assert(added[added.len() - 1] == all[i]);
            }
        }
        assert forall|i: int| 0 <= i < added.len() implies has_header(
            all,
            (#[trigger] added[i]).0,
        ) by {
            if i < rest.len() {
                assert(rest[i] == added[i]);
                assert(has_header(before, rest[i].0));
                let k = choose|k: int|
                    0 <= k < before.len() && (#[trigger] before[k]).0 == rest[i].0;
                assert(all[k] == before[k]);
            } else if !has_header(before, added.last().0) {
                assert(all[before.len() as int].0 == added.last().0);
            }
        }
    }
}

/// A partition that the batch names pins every message, whatever the formatter asks for; without
/// it a nonnegative partition asked for by the formatter counts.
pub proof fn law_batch_partition_wins(
    topic: Seq<char>,
    pinned: i32,
    message: Encoded,
    added: Seq<(Seq<char>, Seq<u8>)>,
)
    ensures
        record_for(topic, Some(pinned), message, added).partition == Some(pinned),
        record_for(topic, None, message, added).partition == (if message.partition >= 0 {
            Some(message.partition as i32)
        } else {
            None
        }),
{
}

/// A partition number is taken as it is written or refused, never cut to another number.
pub proof fn law_partition_is_not_truncated(line: Map<Seq<char>, JsonTree>, n: int)
    requires
        line.contains_key("partition"@),
        line["partition"@] == JsonTree::Int(n),
    ensures
        match pinned_partition(line) {
            Ok(partition) => i32::MIN <= n <= i32::MAX && partition == Some(n as i32),
            Err(_) => n < i32::MIN || n > i32::MAX,
        },
{
}

/// A batch line that was consumed can be produced in a built-in format: it goes to the topic and
/// the partition that it was read from, with one record for each message, in order.
pub proof fn law_consumed_batches_can_be_produced(
    format: Formatter,
    topic: Seq<char>,
    partition: i32,
    messages: Seq<JsonTree>,
    replies: Seq<EncodeReply>,
)
    requires
        format !is Wasm,
        forall|i: int|
            0 <= i < messages.len() ==> builtin_encoded(
                format is Raw,
                #[trigger] messages[i],
            ) is Ok,
    ensures
        batch_of(batch_tree(topic, partition, messages), format, replies) == Ok::<
            BatchContent,
            Seq<char>,
        >(
            BatchContent {
                topic,
                partition: Some(partition),
                messages: Seq::new(
                    messages.len(),
                    |i: int| builtin_encoded(format is Raw, messages[i])->Ok_0,
                ),
            },
        ),
{
    reveal_strlit("topic");
    reveal_strlit("partition");
    reveal_strlit("messages");
    assert("topic"@.len() == 5 && "partition"@.len() == 9 && "messages"@.len() == 8);
    lemma_messages_encoded(format, messages, replies);
}

/// The line that was written for a batch can be produced in a built-in format: it is read as the
/// batch, and goes to the topic and the partition of the batch, with one record for each message,
/// in order. This holds of a batch that is read back from its text.
pub proof fn law_written_lines_can_be_produced(
    format: Formatter,
    topic: Seq<char>,
    partition: i32,
    messages: Seq<JsonTree>,
    replies: Seq<EncodeReply>,
    number: usize,
)
    requires
        format !is Wasm,
        is_line(batch_tree(topic, partition, messages)),
        survives(batch_tree(topic, partition, messages)),
        forall|i: int|
            0 <= i < messages.len() ==> builtin_encoded(
                format is Raw,
                #[trigger] messages[i],
            ) is Ok,
    ensures
        line_value(json_text(batch_tree(topic, partition, messages)), number) matches Ok(Some(line))
            && batch_of(line, format, replies) == Ok::<BatchContent, Seq<char>>(
            BatchContent {
                topic,
                partition: Some(partition),
                messages: Seq::new(
                    messages.len(),
                    |i: int| builtin_encoded(format is Raw, messages[i])->Ok_0,
                ),
            },
        ),
{
    let text = json_text(batch_tree(topic, partition, messages));
    lemma_trimmed_blank(text);
    assert(!is_white(text[0]));
    law_consumed_batches_can_be_produced(format, topic, partition, messages, replies);
}

proof fn lemma_messages_encoded(
    format: Formatter,
    messages: Seq<JsonTree>,
    replies: Seq<EncodeReply>,
)
    requires
        format !is Wasm,
        forall|i: int|
            0 <= i < messages.len() ==> builtin_encoded(
                format is Raw,
                #[trigger] messages[i],
            ) is Ok,
    ensures
        messages_encoded(format, messages, replies) == Ok::<Seq<Encoded>, Seq<char>>(
            Seq::new(
                messages.len(),
                |i: int| builtin_encoded(format is Raw, messages[i])->Ok_0,
            ),
        ),
    decreases messages.len(),
{
    let records = Seq::new(
        messages.len(),
        |i: int| builtin_encoded(format is Raw, messages[i])->Ok_0,
    );
    if messages.len() == 0 {
        assert(records =~= Seq::empty());
    } else {
        let rest = messages.drop_last();
        lemma_messages_encoded(format, rest, replies);
        assert(records =~= Seq::new(
            rest.len(),
            |i: int| builtin_encoded(format is Raw, rest[i])->Ok_0,
        ).push(builtin_encoded(format is Raw, messages.last())->Ok_0));
    }
}

/// A static header is written as a name and a value around the first colon, both without the white
/// space around them; the value may hold further colons. A text without a colon, or with a blank
/// name, writes none.
pub proof fn law_static_headers_are_name_and_value(name: Seq<char>, value: Seq<char>)
    requires
        !name.contains(':'),
    ensures
        trimmed(name).len() > 0 ==> static_header(name + seq![':'] + value) == Some(
            (trimmed(name), encode_utf8(trimmed(value))),
        ),
        trimmed(name).len() == 0 ==> static_header(name + seq![':'] + value) is None,
        static_header(name) is None,
{
    law_split_at_the_first(name, ':', value);
}

/// Static headers are read one for one, in order, and are refused just where one of them writes
/// none.
pub proof fn law_static_headers_one_for_one(raw: Seq<Seq<char>>)
    ensures
        static_headers(raw) is Ok <==> forall|i: int|
            0 <= i < raw.len() ==> static_header(#[trigger] raw[i]) is Some,
        static_headers(raw) matches Ok(headers) ==> headers.len() == raw.len() && forall|i: int|
            0 <= i < raw.len() ==> static_header(raw[i]) == Some(#[trigger] headers[i]),
    decreases raw.len(),
{
    if raw.len() > 0 {
        let rest = raw.drop_last();
        law_static_headers_one_for_one(rest);
        if static_headers(raw) is Ok {
            assert forall|i: int| 0 <= i < raw.len() implies static_header(
                #[trigger] raw[i],
            ) is Some by {
                if i < rest.len() {
                    assert(static_header(rest[i]) is Some);
                }
            }
        }
        if forall|i: int| 0 <= i < raw.len() ==> static_header(#[trigger] raw[i]) is Some {
            assert forall|i: int| 0 <= i < rest.len() implies static_header(
                #[trigger] rest[i],
            ) is Some by {
                assert(static_header(raw[i]) is Some);
            }
            assert(static_header(raw[raw.len() - 1]) is Some);
        }
    }
}

/// A batch line is taken just where it is an object with a text as its topic, a list as its
/// messages, and a partition that is absent, null or a signed 32-bit integer; then all three are
/// what the line says.
pub proof fn law_batch_lines_are_read(line: JsonTree)
    ensures
        outline_of(line) is Ok <==> (line matches JsonTree::Object(fields)
            && fields.contains_key("topic"@) && fields["topic"@] is Str && fields.contains_key(
            "messages"@,
        ) && fields["messages"@] is Array && (!fields.contains_key("partition"@)
            || fields["partition"@] is Null || (fields["partition"@] matches JsonTree::Int(n)
            && i32::MIN <= n <= i32::MAX))),
        outline_of(line) matches Ok(outline) ==> {
            let fields = line->Object_0;
            &&& fields["topic"@] == JsonTree::Str(outline.topic)
            &&& fields["messages"@] == JsonTree::Array(outline.messages)
            &&& outline.partition is None <==> !fields.contains_key("partition"@)
                || fields["partition"@] is Null
            &&& outline.partition matches Some(n) ==> fields["partition"@] == JsonTree::Int(
                n as int,
            )
        },
{
}

/// The messages of a batch are encoded one for one, in order, each with the component's answer for
/// it; the batch is refused just where one of them is.
pub proof fn law_messages_one_for_one(
    format: Formatter,
    messages: Seq<JsonTree>,
    replies: Seq<EncodeReply>,
)
    ensures
        forall|i: int|
            0 <= i < replies.len() ==> #[trigger] reply_for(replies, i) == replies[i],
        messages_encoded(format, messages, replies) is Ok <==> forall|i: int|
            0 <= i < messages.len() ==> encoded(
                format,
                #[trigger] messages[i],
                reply_for(replies, i),
            ) is Ok,
        messages_encoded(format, messages, replies) matches Ok(records) ==> records.len()
            == messages.len() && forall|i: int|
            0 <= i < messages.len() ==> encoded(format, messages[i], reply_for(replies, i)) == Ok::<
                Encoded,
                Seq<char>,
            >(#[trigger] records[i]),
    decreases messages.len(),
{
    if messages.len() > 0 {
        let rest = messages.drop_last();
        law_messages_one_for_one(format, rest, replies);
        let good = |tree: JsonTree, i: int| encoded(format, tree, reply_for(replies, i)) is Ok;
        if messages_encoded(format, messages, replies) is Ok {
            assert forall|i: int| 0 <= i < messages.len() implies good(
                #[trigger] messages[i],
                i,
            ) by {
                if i < rest.len() {
                    assert(good(rest[i], i));
                }
            }
        }
        if forall|i: int| 0 <= i < messages.len() ==> good(#[trigger] messages[i], i) {
            assert forall|i: int| 0 <= i < rest.len() implies good(#[trigger] rest[i], i) by {
                assert(good(messages[i], i));
            }
            assert(good(messages[messages.len() - 1], messages.len() - 1));
        }
    }
}

/// The batch of a line is the one that it says: its topic, its partition and its messages as they
/// are encoded. It is refused just where the line or a message is.
pub proof fn law_batches_are_the_line(
    line: JsonTree,
    format: Formatter,
    replies: Seq<EncodeReply>,
)
    ensures
        batch_of(line, format, replies) is Ok <==> (outline_of(line) matches Ok(outline)
            && messages_encoded(format, outline.messages, replies) is Ok),
        batch_of(line, format, replies) matches Ok(batch) ==> {
            let outline = outline_of(line)->Ok_0;
            &&& batch.topic == outline.topic
            &&& batch.partition == outline.partition
            &&& messages_encoded(format, outline.messages, replies) == Ok::<
                Seq<Encoded>,
                Seq<char>,
            >(batch.messages)
        },
{
}

/// The record of a message carries the message: it goes to the batch's topic with the message's
/// own key and payload, and with the headers of the message and those added, each with a value;
/// without any header it carries none.
pub proof fn law_records_carry_the_message(
    topic: Seq<char>,
    pinned: Option<i32>,
    message: Encoded,
    added: Seq<(Seq<char>, Seq<u8>)>,
)
    ensures
        ({
            let record = record_for(topic, pinned, message, added);
            let all = merged(message.headers, added);
            &&& record.topic == topic
            &&& record.payload == message.value
            &&& record.key == message.key
            &&& record.headers is None <==> message.headers.len() == 0 && added.len() == 0
            &&& record.headers matches Some(list) ==> list.len() == all.len() && forall|i: int|
                0 <= i < all.len() ==> (#[trigger] list[i]).0 == all[i].0 && list[i].1 == Some(
                    all[i].1,
                )
        }),
{
    law_message_headers_win(message.headers, added);
    if added.len() > 0 {
        assert(has_header(merged(message.headers, added), added[0].0));
    }
}

/// The records of a line are those of its messages, one for one and in order; a line that is
/// refused has none.
pub proof fn law_records_one_for_one(
    line: JsonTree,
    number: usize,
    format: Formatter,
    replies: Seq<EncodeReply>,
    added: Seq<(Seq<char>, Seq<u8>)>,
)
    ensures
        line_records(line, number, format, replies, added) is Ok <==> batch_of(
            line,
            format,
            replies,
        ) is Ok,
        line_records(line, number, format, replies, added) matches Ok(records) ==> {
            let batch = batch_of(line, format, replies)->Ok_0;
            &&& records.len() == batch.messages.len()
            &&& forall|i: int|
                0 <= i < records.len() ==> #[trigger] records[i] == record_for(
                    batch.topic,
                    batch.partition,
                    batch.messages[i],
                    added,
                )
        },
{
}

/// A line of white space alone is ignored; any other line is the JSON that it writes, and is
/// refused just where it writes none.
pub proof fn law_blank_lines_are_ignored(line: Seq<char>, number: usize)
    ensures
        line_value(line, number) == Ok::<Option<JsonTree>, Seq<char>>(None) <==> forall|i: int|
            0 <= i < line.len() ==> is_white(#[trigger] line[i]),
        (exists|i: int| 0 <= i < line.len() && !is_white(#[trigger] line[i])) ==> match json_parse(
            encode_utf8(line),
        ) {
            Ok(tree) => line_value(line, number) == Ok::<Option<JsonTree>, Seq<char>>(Some(tree)),
            Err(_) => line_value(line, number) is Err,
        },
{
    lemma_trimmed_blank(line);
}

/// A batch is refused for its first message that cannot be encoded, and the error tells which one
/// and why.
pub proof fn law_first_bad_message_is_told(
    format: Formatter,
    messages: Seq<JsonTree>,
    replies: Seq<EncodeReply>,
    at: int,
)
    requires
        0 <= at < messages.len(),
        forall|j: int|
            0 <= j < at ==> encoded(format, #[trigger] messages[j], reply_for(replies, j)) is Ok,
        encoded(format, messages[at], reply_for(replies, at)) is Err,
    ensures
        messages_encoded(format, messages, replies) == Err::<Seq<Encoded>, Seq<char>>(
            "message "@ + decimal(at) + ": "@ + encoded(
                format,
                messages[at],
                reply_for(replies, at),
            )->Err_0,
        ),
{
    let head = messages.take(at);
    let upto = messages.take(at + 1);
    assert forall|j: int| 0 <= j < head.len() implies encoded(
        format,
        #[trigger] head[j],
        reply_for(replies, j),
    ) is Ok by {
        assert(head[j] == messages[j]);
    }
    law_messages_one_for_one(format, head, replies);
    assert(upto.drop_last() =~= head);
    assert(upto.last() == messages[at]);
    lemma_messages_prefix(format, messages, replies, at + 1);
}

/// Static headers are refused for the first that writes none, and the error tells it.
pub proof fn law_first_bad_header_is_told(raw: Seq<Seq<char>>, at: int)
    requires
        0 <= at < raw.len(),
        forall|j: int| 0 <= j < at ==> static_header(#[trigger] raw[j]) is Some,
        static_header(raw[at]) is None,
    ensures
        static_headers(raw) == Err::<Seq<(Seq<char>, Seq<u8>)>, Seq<char>>(
            "Invalid header \""@ + raw[at] + "\"; expected key:value"@,
        ),
{
    let head = raw.take(at);
    let upto = raw.take(at + 1);
    assert forall|j: int| 0 <= j < head.len() implies static_header(#[trigger] head[j]) is Some by {
        assert(head[j] == raw[j]);
    }
    law_static_headers_one_for_one(head);
    assert(upto.drop_last() =~= head);
    assert(upto.last() == raw[at]);
    lemma_static_headers_prefix(raw, at + 1);
}

/// The error of an input line tells the number of the line and what is wrong with it.
pub proof fn law_bad_lines_are_told(
    line: JsonTree,
    text: Seq<char>,
    number: usize,
    format: Formatter,
    replies: Seq<EncodeReply>,
    added: Seq<(Seq<char>, Seq<u8>)>,
)
    ensures
        batch_of(line, format, replies) matches Err(e) ==> line_records(
            line,
            number,
            format,
            replies,
            added,
        ) == Err::<Seq<Outgoing>, Seq<char>>("line "@ + decimal(number as int) + ": "@ + e),
        line_value(text, number) matches Err(told) ==> (json_parse(encode_utf8(text)) matches Err(e)
            && told == "Invalid JSON on line "@ + decimal(number as int) + ": "@ + e),
{
}

} // verus!
