//! Formatters that a WebAssembly component implements: what the component is asked, and what is
//! made of its answer.

use vstd::prelude::*;
use vstd::string::*;
use vstd::utf8::encode_utf8;

use crate::error::Error;
use crate::formatter::{
    bytes_view, copy_bytes, copy_headers, decoded_fields, headers_view, DecodedRecord, Encoded,
    EncodedRecord, Record, RecordView,
};
use crate::json::{json_parse, json_text, Json, JsonTree};

verus! {

/// A formatter that a WebAssembly component implements, known by the path of the component.
#[derive(Debug)]
pub struct WasmFormatter {
    pub path: String,
}

/// The record that a component is asked to decode.
#[derive(Debug)]
pub struct KafkaRecord {
    pub topic: String,
    pub partition: i32,
    pub key: Option<Vec<u8>>,
    pub value: Option<Vec<u8>>,
    pub headers: Vec<(String, Vec<u8>)>,
    pub timestamp: i64,
}

/// What came of asking a component to decode a record.
#[derive(Debug)]
pub enum DecodeReply {
    /// The component was not asked.
    NotAsked,
    /// The component stopped with a trap.
    Trap(String),
    /// The component gave the record as JSON text.
    Json(String),
    /// The component reported an error.
    Error(String),
}

/// What came of asking a component to encode a message.
#[derive(Debug)]
pub enum EncodeReply {
    /// The component was not asked.
    NotAsked,
    /// The component stopped with a trap.
    Trap(String),
    /// The component reported an error.
    Error(String),
    /// The component gave the parts of a record.
    Record(EncodedRecord),
}

/// What a component's answer to a decode request comes to.
pub open spec fn plugin_decoded(reply: DecodeReply) -> Result<Map<Seq<char>, JsonTree>, Seq<char>>
    recommends
        reply !is NotAsked,
{
    match reply {
        DecodeReply::Json(text) => match json_parse(encode_utf8(text@)) {
            Ok(tree) => Ok(decoded_fields(tree)),
            Err(e) => Err("Plugin returned invalid JSON: "@ + e),
        },
        DecodeReply::Error(message) => Err("Plugin decode error: "@ + message@),
        DecodeReply::Trap(message) => Err("Plugin decode trap: "@ + message@),
        DecodeReply::NotAsked => arbitrary(),
    }
}

/// What a component's answer to an encode request comes to.
pub open spec fn plugin_encoded(reply: EncodeReply) -> Result<Encoded, Seq<char>>
    recommends
        reply !is NotAsked,
{
    match reply {
        EncodeReply::Record(record) => Ok(record@),
        EncodeReply::Error(message) => Err("Plugin encode error: "@ + message@),
        EncodeReply::Trap(message) => Err("Plugin encode trap: "@ + message@),
        EncodeReply::NotAsked => arbitrary(),
    }
}

/// A text with another one behind it.
fn joined(head: &str, tail: &str) -> (r: String)
    ensures
        r@ == head@ + tail@,
{
    let mut out = head.to_owned();
    out.append(tail);
    out
}

impl WasmFormatter {
    /// The name that a component gives itself; a stand-in where it gives none.
    pub fn plugin_name(told: Option<String>) -> (r: String)
        ensures
            r@ == (match told {
                Some(name) => name@,
                None => "wasm:unknown"@,
            }),
    {
        match told {
            Some(name) => name,
            None => "wasm:unknown".to_owned(),
        }
    }

    /// The record that the component is asked to decode: the whole of the record, unchanged.
    pub fn decode_request(&self, view: &RecordView<'_>) -> (r: KafkaRecord)
        ensures
            r.topic@ == view.topic@,
            r.partition == view.partition,
            r.timestamp == view.timestamp,
            view.content() == (Record {
                key: bytes_view(r.key),
                value: bytes_view(r.value),
                headers: headers_view(r.headers@),
            }),
    {
        KafkaRecord {
            topic: view.topic.to_owned(),
            partition: view.partition,
            key: copy_bytes(view.key),
            value: copy_bytes(view.value),
            headers: copy_headers(view.headers),
            timestamp: view.timestamp,
        }
    }

    /// What the component's answer to a decode request comes to.
    pub fn decode(&self, reply: &DecodeReply) -> (r: Result<DecodedRecord, Error>)
        requires
            reply !is NotAsked,
        ensures
            match r {
                Ok(record) => plugin_decoded(*reply) == Ok::<Map<Seq<char>, JsonTree>, Seq<char>>(
                    record.fields@,
                ),
                Err(e) => plugin_decoded(*reply) == Err::<Map<Seq<char>, JsonTree>, Seq<char>>(e@),
            },
    {
        match reply {
            DecodeReply::Json(text) => match Json::parse(text.as_str().as_bytes()) {
                Ok(json) => Ok(DecodedRecord::from_json(json)),
                Err(e) => Err(
                    Error::new(joined("Plugin returned invalid JSON: ", e.message.as_str())),
                ),
            },
            DecodeReply::Error(message) => Err(
                Error::new(joined("Plugin decode error: ", message.as_str())),
            ),
            DecodeReply::Trap(message) => Err(
                Error::new(joined("Plugin decode trap: ", message.as_str())),
            ),
            DecodeReply::NotAsked => Err(Error::text("")),
        }
    }

    /// The text that the component is asked to encode: the whole message as JSON.
    pub fn encode_request(&self, line: &Json) -> (r: String)
        ensures
            r@ == json_text(line@),
    {
        line.text()
    }

    /// What the component's answer to an encode request comes to.
    pub fn encode(&self, reply: &EncodeReply) -> (r: Result<EncodedRecord, Error>)
        requires
            reply !is NotAsked,
        ensures
            match r {
                Ok(record) => plugin_encoded(*reply) == Ok::<Encoded, Seq<char>>(record@),
                Err(e) => plugin_encoded(*reply) == Err::<Encoded, Seq<char>>(e@),
            },
    {
        match reply {
            EncodeReply::Record(record) => Ok(record.copy()),
            EncodeReply::Error(message) => Err(
                Error::new(joined("Plugin encode error: ", message.as_str())),
            ),
            EncodeReply::Trap(message) => Err(
                Error::new(joined("Plugin encode trap: ", message.as_str())),
            ),
            EncodeReply::NotAsked => Err(Error::text("")),
        }
    }
}

/// A component's JSON is read as it stands: an object gives its fields, any other value the one
/// field `value`, and a text that is no JSON is an error, as is a trap or an error of the
/// component.
pub proof fn law_component_answers_are_read(reply: DecodeReply, name: Seq<char>)
    ensures
        match reply {
            DecodeReply::Json(text) => match json_parse(encode_utf8(text@)) {
                Ok(JsonTree::Object(fields)) => plugin_decoded(reply) == Ok::<
                    Map<Seq<char>, JsonTree>,
                    Seq<char>,
                >(fields),
                Ok(tree) => plugin_decoded(reply) matches Ok(fields) && fields["value"@] == tree
                    && (fields.contains_key(name) <==> name == "value"@),
                Err(e) => plugin_decoded(reply) is Err,
            },
            DecodeReply::Error(_) => plugin_decoded(reply) is Err,
            DecodeReply::Trap(_) => plugin_decoded(reply) is Err,
            DecodeReply::NotAsked => true,
        },
{
}

/// A record that a component encoded is taken as it is; a trap or an error of the component is an
/// error that holds its message.
pub proof fn law_component_records_are_taken(reply: EncodeReply)
    ensures
        match reply {
            EncodeReply::Record(record) => plugin_encoded(reply) == Ok::<Encoded, Seq<char>>(
                record@,
            ),
            EncodeReply::Error(message) => plugin_encoded(reply) matches Err(e) && e.len()
                >= message@.len() && e.skip(e.len() - message@.len()) == message@,
            EncodeReply::Trap(message) => plugin_encoded(reply) matches Err(e) && e.len()
                >= message@.len() && e.skip(e.len() - message@.len()) == message@,
            EncodeReply::NotAsked => true,
        },
{
    match reply {
        EncodeReply::Error(message) => {
            let e = "Plugin encode error: "@ + message@;
            assert(e.skip(e.len() - message@.len()) =~= message@);
        },
        EncodeReply::Trap(message) => {
            let e = "Plugin encode trap: "@ + message@;
            assert(e.skip(e.len() - message@.len()) =~= message@);
        },
        _ => {},
    }
}

} // verus!
