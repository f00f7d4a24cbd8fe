//! Formatters: how the bytes of a record become JSON, and JSON becomes the bytes of a record.

use vstd::prelude::*;
use vstd::slice::slice_to_vec;
use vstd::string::*;
use vstd::utf8::encode_utf8;

use crate::error::Error;
use crate::json::{
    json_parse, json_text, lemma_fields_listed, lemma_map_of_domain, lemma_map_of_value, map_of,
    names_of, reads_back, survives, Json, JsonObject, JsonTree,
};
use crate::order::{
    ascending_names, lemma_ascending_names_list, lemma_name_order_linear, name_order,
};
use crate::text::{
    ends_with, has_suffix, law_lossy_reads_back, lossy, lossy_text, same_text, text_less,
};
use crate::wasm_formatter::{
    plugin_decoded, plugin_encoded, DecodeReply, EncodeReply, WasmFormatter,
};

verus! {

/// A record as a formatter sees it.
pub struct RecordView<'a> {
    pub topic: &'a str,
    pub partition: i32,
    pub key: Option<&'a [u8]>,
    pub value: Option<&'a [u8]>,
    pub headers: &'a [(String, Vec<u8>)],
    pub timestamp: i64,
}

/// The bytes of a record: key, value and headers.
#[verifier::ext_equal]
pub struct Record {
    pub key: Option<Seq<u8>>,
    pub value: Option<Seq<u8>>,
    pub headers: Seq<(Seq<char>, Seq<u8>)>,
}

/// The bytes behind an optional buffer.
pub open spec fn bytes_view(bytes: Option<Vec<u8>>) -> Option<Seq<u8>> {
    match bytes {
        Some(b) => Some(b@),
        None => None,
    }
}

/// The bytes behind an optional slice.
pub open spec fn slice_view(bytes: Option<&[u8]>) -> Option<Seq<u8>> {
    match bytes {
        Some(b) => Some(b@),
        None => None,
    }
}

/// The names and bytes of a list of headers.
pub open spec fn headers_view(headers: Seq<(String, Vec<u8>)>) -> Seq<(Seq<char>, Seq<u8>)> {
    Seq::new(headers.len(), |i: int| (headers[i].0@, headers[i].1@))
}

impl RecordView<'_> {
    /// The bytes of this record.
    pub open spec fn content(self) -> Record {
        Record {
            key: slice_view(self.key),
            value: slice_view(self.value),
            headers: headers_view(self.headers@),
        }
    }
}

/// A copy of some optional bytes.
pub fn copy_bytes(bytes: Option<&[u8]>) -> (r: Option<Vec<u8>>)
    ensures
        bytes_view(r) == slice_view(bytes),
{
    match bytes {
        Some(b) => Some(slice_to_vec(b)),
        None => None,
    }
}

/// A copy of a list of headers.
pub fn copy_headers(headers: &[(String, Vec<u8>)]) -> (r: Vec<(String, Vec<u8>)>)
    ensures
        headers_view(r@) == headers_view(headers@),
{
    let mut out: Vec<(String, Vec<u8>)> = Vec::new();
    let mut i: usize = 0;
    while i < headers.len()
        invariant
            i <= headers@.len(),
            out@.len() == i,
            forall|j: int|
                0 <= j < i ==> (#[trigger] out@[j]).0@ == headers@[j].0@ && out@[j].1@
                    == headers@[j].1@,
        decreases headers.len() - i,
    {
        let name = headers[i].0.clone();
        out.push((name, slice_to_vec(headers[i].1.as_slice())));
        i += 1;
    }
    proof {
        assert(headers_view(out@) =~= headers_view(headers@));
    }
    out
}

/// A decoded record: the fields that go into the output line.
#[derive(Debug)]
pub struct DecodedRecord {
    pub fields: JsonObject,
}

/// The fields of a decoded value: those of an object; any other value is the field `value`.
pub open spec fn decoded_fields(tree: JsonTree) -> Map<Seq<char>, JsonTree> {
    match tree {
        JsonTree::Object(fields) => fields,
        other => Map::<Seq<char>, JsonTree>::empty().insert("value"@, other),
    }
}

impl DecodedRecord {
    /// The record of a decoded value.
    pub fn from_json(value: Json) -> (r: DecodedRecord)
        ensures
            r.fields@ == decoded_fields(value@),
    {
        match value {
            Json::Object(fields) => DecodedRecord { fields },
            other => {
                let mut fields = JsonObject::new();
                fields.insert("value".to_owned(), other);
                DecodedRecord { fields }
            },
        }
    }
}

/// An encoded record.
#[derive(Debug)]
pub struct EncodedRecord {
    pub key: Option<Vec<u8>>,
    pub value: Option<Vec<u8>>,
    pub headers: Vec<(String, Vec<u8>)>,
    /// -1 lets the producer choose.
    pub partition: i32,
}

/// What an encoded record says.
#[verifier::ext_equal]
pub struct Encoded {
    pub key: Option<Seq<u8>>,
    pub value: Option<Seq<u8>>,
    pub headers: Seq<(Seq<char>, Seq<u8>)>,
    pub partition: int,
}

impl View for EncodedRecord {
    type V = Encoded;

    open spec fn view(&self) -> Encoded {
        Encoded {
            key: bytes_view(self.key),
            value: bytes_view(self.value),
            headers: headers_view(self.headers@),
            partition: self.partition as int,
        }
    }
}

fn copy_buffer(bytes: &Option<Vec<u8>>) -> (r: Option<Vec<u8>>)
    ensures
        bytes_view(r) == bytes_view(*bytes),
{
    match bytes {
        Some(b) => Some(slice_to_vec(b.as_slice())),
        None => None,
    }
}

impl EncodedRecord {
    /// A copy of this record.
    pub fn copy(&self) -> (r: EncodedRecord)
        ensures
            r@ == self@,
    {
        EncodedRecord {
            key: copy_buffer(&self.key),
            value: copy_buffer(&self.value),
            headers: copy_headers(self.headers.as_slice()),
            partition: self.partition,
        }
    }
}

/// How records are decoded and encoded.
#[derive(Debug)]
pub enum Formatter {
    Json,
    Raw,
    Wasm(WasmFormatter),
}

/// The headers of a record as an object of texts; of two with one name the later counts.
pub open spec fn header_fields(headers: Seq<(Seq<char>, Seq<u8>)>) -> Map<Seq<char>, JsonTree> {
    map_of(
        Seq::new(headers.len(), |i: int| (headers[i].0, JsonTree::Str(lossy(headers[i].1)))),
    )
}

/// A key as a text, if there is one.
pub open spec fn key_tree(key: Option<Seq<u8>>) -> JsonTree {
    match key {
        Some(bytes) => JsonTree::Str(lossy(bytes)),
        None => JsonTree::Null,
    }
}

/// The fields of a record whose value has been decoded.
pub open spec fn record_fields(record: Record, value: JsonTree) -> Map<Seq<char>, JsonTree> {
    Map::<Seq<char>, JsonTree>::empty().insert(
        "headers"@,
        JsonTree::Object(header_fields(record.headers)),
    ).insert("key"@, key_tree(record.key)).insert("value"@, value)
}

/// What the JSON format makes of a value: it must be JSON text; no value is null.
pub open spec fn json_value(value: Option<Seq<u8>>) -> Result<JsonTree, Seq<char>> {
    match value {
        Some(bytes) => json_parse(bytes),
        None => Ok(JsonTree::Null),
    }
}

/// What the raw format makes of a value: its text; no value is null.
pub open spec fn raw_value(value: Option<Seq<u8>>) -> JsonTree {
    match value {
        Some(bytes) => JsonTree::Str(lossy(bytes)),
        None => JsonTree::Null,
    }
}

/// What a formatter makes of a record: its fields, or an error.
pub open spec fn decoded(
    format: Formatter,
    record: Record,
    reply: DecodeReply,
) -> Result<Map<Seq<char>, JsonTree>, Seq<char>> {
    match format {
        Formatter::Json => match json_value(record.value) {
            Ok(value) => Ok(record_fields(record, value)),
            Err(e) => Err(e),
        },
        Formatter::Raw => Ok(record_fields(record, raw_value(record.value))),
        Formatter::Wasm(_) => plugin_decoded(reply),
    }
}

/// The headers of a record as an object of texts.
pub fn header_object(headers: &[(String, Vec<u8>)]) -> (r: JsonObject)
    ensures
        r@ == header_fields(headers_view(headers@)),
{
    let mut object = JsonObject::new();
    let ghost all = headers_view(headers@);
    let ghost pairs = Seq::new(
        all.len(),
        |i: int| (all[i].0, JsonTree::Str(lossy(all[i].1))),
    );
    let mut i: usize = 0;
    while i < headers.len()
        invariant
            i <= headers@.len(),
            all == headers_view(headers@),
            pairs == Seq::new(all.len(), |i: int| (all[i].0, JsonTree::Str(lossy(all[i].1)))),
            object@ == map_of(pairs.take(i as int)),
        decreases headers.len() - i,
    {
        proof {
            assert(pairs.take(i + 1).drop_last() =~= pairs.take(i as int));
        }
        let name = headers[i].0.clone();
        object.insert(name, Json::Str(lossy_text(headers[i].1.as_slice())));
        i += 1;
    }
    proof {
        assert(pairs.take(pairs.len() as int) =~= pairs);
    }
    object
}

/// The record as an object, once its value has been decoded.
fn builtin_decode_object(view: &RecordView<'_>, value: Json) -> (r: Json)
    ensures
        r@ == JsonTree::Object(record_fields(view.content(), value@)),
{
    let headers = header_object(view.headers);
    let key = match view.key {
        Some(bytes) => Json::Str(lossy_text(bytes)),
        None => Json::Null,
    };
    let mut object = JsonObject::new();
    object.insert("headers".to_owned(), Json::Object(headers));
    object.insert("key".to_owned(), key);
    object.insert("value".to_owned(), value);
    Json::Object(object)
}

/// The bytes of a key or a header value: a text's UTF-8, no bytes for null, else JSON text.
pub open spec fn tree_bytes(tree: JsonTree) -> Option<Seq<u8>> {
    match tree {
        JsonTree::Null => None,
        JsonTree::Str(text) => Some(encode_utf8(text)),
        other => Some(encode_utf8(json_text(other))),
    }
}

/// The bytes of a header value; null is empty.
pub open spec fn header_bytes(tree: JsonTree) -> Seq<u8> {
    match tree_bytes(tree) {
        Some(bytes) => bytes,
        None => Seq::empty(),
    }
}

/// The headers that an object writes, in ascending order of their names.
pub open spec fn header_list(fields: Map<Seq<char>, JsonTree>) -> Seq<(Seq<char>, Seq<u8>)> {
    let names = ascending_names(fields.dom());
    Seq::new(names.len(), |i: int| (names[i], header_bytes(fields[names[i]])))
}

/// The key that a message asks for.
pub open spec fn message_key(message: Map<Seq<char>, JsonTree>) -> Option<Seq<u8>> {
    if message.contains_key("key"@) {
        tree_bytes(message["key"@])
    } else {
        None
    }
}

/// The headers that a message asks for; anything but an object stands for none.
pub open spec fn message_headers(message: Map<Seq<char>, JsonTree>) -> Seq<(Seq<char>, Seq<u8>)> {
    if message.contains_key("headers"@) {
        match message["headers"@] {
            JsonTree::Object(fields) => header_list(fields),
            _ => Seq::empty(),
        }
    } else {
        Seq::empty()
    }
}

/// The bytes of a value in the raw format: a text's UTF-8, else JSON text.
pub open spec fn raw_bytes(tree: JsonTree) -> Seq<u8> {
    match tree {
        JsonTree::Str(text) => encode_utf8(text),
        JsonTree::Null => encode_utf8("null"@),
        other => encode_utf8(json_text(other)),
    }
}

/// The bytes of a value in a built-in format.
pub open spec fn value_bytes(raw: bool, tree: JsonTree) -> Seq<u8> {
    if raw {
        raw_bytes(tree)
    } else {
        encode_utf8(json_text(tree))
    }
}

/// What a built-in format makes of a message: the bytes of a record, or an error.
pub open spec fn builtin_encoded(raw: bool, line: JsonTree) -> Result<Encoded, Seq<char>> {
    match line {
        JsonTree::Object(message) => if message.contains_key("value"@) {
            Ok(
                Encoded {
                    key: message_key(message),
                    value: Some(value_bytes(raw, message["value"@])),
                    headers: message_headers(message),
                    partition: -1,
                },
            )
        } else {
            Err("produce input line is missing the required `value` field"@)
        },
        _ => Err("produce input line must be a JSON object with a `value` field"@),
    }
}

/// What a formatter makes of a message: the bytes of a record, or an error.
pub open spec fn encoded(format: Formatter, line: JsonTree, reply: EncodeReply) -> Result<
    Encoded,
    Seq<char>,
> {
    match format {
        Formatter::Json => builtin_encoded(false, line),
        Formatter::Raw => builtin_encoded(true, line),
        Formatter::Wasm(_) => plugin_encoded(reply),
    }
}

/// Whether the text of a message's value is read back as that value, where the format writes JSON
/// text.
pub open spec fn value_reads_back(format: Formatter, line: JsonTree) -> bool {
    format is Json ==> match line {
        JsonTree::Object(message) => reads_back(message["value"@], json_text(message["value"@])),
        _ => true,
    }
}

fn text_bytes(text: &str) -> (r: Vec<u8>)
    ensures
        r@ == encode_utf8(text@),
{
    slice_to_vec(text.as_bytes())
}

/// The bytes of a key or a header value.
fn value_to_bytes(value: &Json) -> (r: Option<Vec<u8>>)
    ensures
        bytes_view(r) == tree_bytes(value@),
{
    match value {
        Json::Null => None,
        Json::Str(s) => Some(text_bytes(s.as_str())),
        other => Some(text_bytes(other.text().as_str())),
    }
}

fn object_headers(object: &JsonObject) -> (r: Vec<(String, Vec<u8>)>)
    ensures
        headers_view(r@) == header_list(object@),
{
    let fields = object.pairs();
    proof {
        lemma_fields_listed(fields@);
    }
    let mut out: Vec<(String, Vec<u8>)> = Vec::new();
    let mut i: usize = 0;
    while i < fields.len()
        invariant
            i <= fields@.len(),
            out@.len() == i,
            forall|j: int|
                0 <= j < i ==> (#[trigger] out@[j]).0@ == fields@[j].0@ && out@[j].1@
                    == header_bytes(fields@[j].1@),
        decreases fields.len() - i,
    {
        let bytes = match value_to_bytes(&fields[i].1) {
            Some(bytes) => bytes,
            None => Vec::new(),
        };
        let name = fields[i].0.clone();
        out.push((name, bytes));
        i += 1;
    }
    proof {
        let names = ascending_names(object@.dom());
        assert(names == names_of(fields@));
        assert forall|j: int| 0 <= j < fields@.len() implies #[trigger] headers_view(out@)[j] == (
            names[j],
            header_bytes(object@[names[j]]),
        ) by {
            assert(object@.contains_key(fields@[j].0@));
        }
        assert(headers_view(out@) =~= header_list(object@));
    }
    out
}

/// Encodes a message in a built-in format.
fn builtin_encode(line: &Json, raw: bool) -> (r: Result<EncodedRecord, Error>)
    ensures
        match r {
            Ok(record) => {
                &&& builtin_encoded(raw, line@) == Ok::<Encoded, Seq<char>>(record@)
                &&& !raw ==> value_reads_back(Formatter::Json, line@)
            },
            Err(e) => builtin_encoded(raw, line@) == Err::<Encoded, Seq<char>>(e@),
        },
{
    let message = match line {
        Json::Object(object) => object,
        _ => {
            return Err(
                Error::text("produce input line must be a JSON object with a `value` field"),
            );
        },
    };
    let value = match message.get("value") {
        Some(value) => value,
        None => {
            return Err(
                Error::text("produce input line is missing the required `value` field"),
            );
        },
    };
    let bytes = if raw {
        match value {
            Json::Str(s) => text_bytes(s.as_str()),
            Json::Null => text_bytes("null"),
            other => text_bytes(other.text().as_str()),
        }
    } else {
        text_bytes(value.text().as_str())
    };
    let key = match message.get("key") {
        Some(key) => value_to_bytes(key),
        None => None,
    };
    let headers = match message.get("headers") {
        Some(Json::Object(object)) => object_headers(object),
        _ => Vec::new(),
    };
    let record = EncodedRecord { key, value: Some(bytes), headers, partition: -1 };
    proof {
        assert(record@.headers =~= message_headers(message@));
    }
    Ok(record)
}

/// Whether a text chooses a formatter, and which.
pub open spec fn chosen(spec_text: Seq<char>, format: Formatter) -> bool {
    match format {
        Formatter::Json => spec_text == "json"@,
        Formatter::Raw => spec_text == "raw"@,
        Formatter::Wasm(plugin) => {
            &&& spec_text != "json"@
            &&& spec_text != "raw"@
            &&& ends_with(spec_text, ".wasm"@)
            &&& plugin.path@ == spec_text
        },
    }
}

/// Whether a text chooses a formatter at all.
pub open spec fn names_format(spec_text: Seq<char>) -> bool {
    spec_text == "json"@ || spec_text == "raw"@ || ends_with(spec_text, ".wasm"@)
}

impl Formatter {
    /// The formatter that a text chooses: `json`, `raw`, or a path that ends in `.wasm`.
    pub fn open(spec_text: &str) -> (r: Result<Formatter, Error>)
        ensures
            match r {
                Ok(format) => chosen(spec_text@, format),
                Err(e) => !names_format(spec_text@) && e@ == "Unsupported data format \""@
                    + spec_text@ + "\" (use json, raw, or a path ending in .wasm)"@,
            },
    {
        if same_text(spec_text, "json") {
            Ok(Formatter::Json)
        } else if same_text(spec_text, "raw") {
            Ok(Formatter::Raw)
        } else if has_suffix(spec_text, ".wasm") {
            Ok(Formatter::Wasm(WasmFormatter { path: spec_text.to_owned() }))
        } else {
            let mut message = "Unsupported data format \"".to_owned();
            message.append(spec_text);
            message.append("\" (use json, raw, or a path ending in .wasm)");
            Err(Error::new(message))
        }
    }

    /// Decodes a record. A component formatter's answer for the record is handed in.
    pub fn decode(&self, view: &RecordView<'_>, reply: &DecodeReply) -> (r: Result<
        DecodedRecord,
        Error,
    >)
        requires
            self is Wasm ==> reply !is NotAsked,
        ensures
            match r {
                Ok(record) => decoded(*self, view.content(), *reply) == Ok::<
                    Map<Seq<char>, JsonTree>,
                    Seq<char>,
                >(record.fields@),
                Err(e) => decoded(*self, view.content(), *reply) == Err::<
                    Map<Seq<char>, JsonTree>,
                    Seq<char>,
                >(e@),
            },
    {
        match self {
            Formatter::Json => {
                let value = match view.value {
                    Some(bytes) => match Json::parse(bytes) {
                        Ok(json) => json,
                        Err(e) => {
                            return Err(e);
                        },
                    },
                    None => Json::Null,
                };
                Ok(DecodedRecord::from_json(builtin_decode_object(view, value)))
            },
            Formatter::Raw => {
                let value = match view.value {
                    Some(bytes) => Json::Str(lossy_text(bytes)),
                    None => Json::Null,
                };
                Ok(DecodedRecord::from_json(builtin_decode_object(view, value)))
            },
            Formatter::Wasm(plugin) => plugin.decode(reply),
        }
    }

    /// Encodes a message. A component formatter's answer for the message is handed in.
    pub fn encode(&self, line: &Json, reply: &EncodeReply) -> (r: Result<EncodedRecord, Error>)
        requires
            self is Wasm ==> reply !is NotAsked,
        ensures
            match r {
                Ok(record) => {
                    &&& encoded(*self, line@, *reply) == Ok::<Encoded, Seq<char>>(record@)
                    &&& value_reads_back(*self, line@)
                },
                Err(e) => encoded(*self, line@, *reply) == Err::<Encoded, Seq<char>>(e@),
            },
    {
        match self {
            Formatter::Json => builtin_encode(line, false),
            Formatter::Raw => builtin_encode(line, true),
            Formatter::Wasm(plugin) => plugin.encode(reply),
        }
    }
}

/// Of headers with one name the last counts; a header changes nothing under other names.
pub proof fn law_last_header_counts(
    headers: Seq<(Seq<char>, Seq<u8>)>,
    name: Seq<char>,
    bytes: Seq<u8>,
)
    ensures
        header_fields(headers.push((name, bytes))) == header_fields(headers).insert(
            name,
            JsonTree::Str(lossy(bytes)),
        ),
{
    let longer = headers.push((name, bytes));
    let pairs = Seq::new(
        longer.len(),
        |i: int| (longer[i].0, JsonTree::Str(lossy(longer[i].1))),
    );
    assert(pairs.drop_last() =~= Seq::new(
        headers.len(),
        |i: int| (headers[i].0, JsonTree::Str(lossy(headers[i].1))),
    ));
}

/// Whether a field is absent, null or a text.
pub open spec fn text_or_null(message: Map<Seq<char>, JsonTree>, name: Seq<char>) -> bool {
    message.contains_key(name) ==> message[name] is Null || message[name] is Str
}

/// Whether the headers of a message are absent or an object of texts.
pub open spec fn text_headers(message: Map<Seq<char>, JsonTree>) -> bool {
    message.contains_key("headers"@) ==> match message["headers"@] {
        JsonTree::Object(fields) => fields.dom().finite() && forall|name: Seq<char>| #[trigger]
            fields.contains_key(name) ==> fields[name] is Str,
        _ => false,
    }
}

/// The key, headers and value of a message, as a decoder shows them.
pub open spec fn shown(message: Map<Seq<char>, JsonTree>) -> Map<Seq<char>, JsonTree> {
    Map::<Seq<char>, JsonTree>::empty().insert(
        "headers"@,
        if message.contains_key("headers"@) {
            message["headers"@]
        } else {
            JsonTree::Object(Map::empty())
        },
    ).insert(
        "key"@,
        if message.contains_key("key"@) {
            message["key"@]
        } else {
            JsonTree::Null
        },
    ).insert("value"@, message["value"@])
}

proof fn lemma_headers_shown(fields: Map<Seq<char>, JsonTree>)
    requires
        fields.dom().finite(),
        forall|name: Seq<char>| #[trigger] fields.contains_key(name) ==> fields[name] is Str,
    ensures
        header_fields(header_list(fields)) == fields,
{
    let names = ascending_names(fields.dom());
    lemma_ascending_names_list(fields.dom());
    lemma_name_order_linear();
    let headers = header_list(fields);
    let pairs = Seq::new(
        headers.len(),
        |i: int| (headers[i].0, JsonTree::Str(lossy(headers[i].1))),
    );
    assert forall|i: int| 0 <= i < names.len() implies #[trigger] pairs[i] == (
        names[i],
        fields[names[i]],
    ) by {
        assert(names.contains(names[i]));
        assert(fields.dom().contains(names[i]));
        assert(fields.contains_key(names[i]));
        law_lossy_reads_back(fields[names[i]]->Str_0);
    }
    assert forall|i: int, j: int| 0 <= i < j < pairs.len() implies #[trigger] pairs[i].0
        != #[trigger] pairs[j].0 by {
        assert(pairs[i].0 == names[i] && pairs[j].0 == names[j]);
        assert(name_order()(names[i], names[j]));
    }
    lemma_map_of_domain(pairs);
    assert forall|name: Seq<char>| #[trigger] map_of(pairs).contains_key(name)
        <==> fields.contains_key(name) by {
        if map_of(pairs).contains_key(name) {
            let i = choose|i: int| 0 <= i < pairs.len() && #[trigger] pairs[i].0 == name;
            assert(names.contains(names[i]));
            assert(fields.dom().contains(names[i]));
        }
        if fields.contains_key(name) {
            assert(fields.dom().contains(name));
            let i = choose|i: int| 0 <= i < names.len() && names[i] == name;
            assert(pairs[i].0 == name);
        }
    }
    assert forall|name: Seq<char>| fields.contains_key(name) implies #[trigger] map_of(
        pairs,
    )[name] == fields[name] by {
        assert(fields.dom().contains(name));
        let i = choose|i: int| 0 <= i < names.len() && names[i] == name;
        lemma_map_of_value(pairs, i);
        assert(pairs[i] == (names[i], fields[names[i]]));
    }
    assert(map_of(pairs) =~= fields);
}

proof fn lemma_envelope_shown(message: Map<Seq<char>, JsonTree>, record: Record)
    requires
        text_or_null(message, "key"@),
        text_headers(message),
        record.key == message_key(message),
        record.headers == message_headers(message),
    ensures
        record_fields(record, message["value"@]) == shown(message),
{
    if message.contains_key("key"@) && message["key"@] is Str {
        law_lossy_reads_back(message["key"@]->Str_0);
    }
    if message.contains_key("headers"@) {
        lemma_headers_shown(message["headers"@]->Object_0);
    } else {
        let empty = Seq::<(Seq<char>, Seq<u8>)>::empty();
        assert(Seq::new(empty.len(), |i: int| (empty[i].0, JsonTree::Str(lossy(empty[i].1))))
            =~= Seq::empty());
        assert(header_fields(empty) =~= Map::<Seq<char>, JsonTree>::empty());
    }
}

/// The fields of a decoded record are a message with a key that is a text or null and headers that
/// are texts, and a decoder shows them as they are.
pub proof fn lemma_record_fields_shown(record: Record, value: JsonTree)
    ensures
        ({
            let fields = record_fields(record, value);
            &&& fields.contains_key("value"@)
            &&& fields["value"@] == value
            &&& text_or_null(fields, "key"@)
            &&& text_headers(fields)
            &&& shown(fields) == fields
        }),
{
    reveal_strlit("key");
    reveal_strlit("headers");
    reveal_strlit("value");
    assert("key"@.len() == 3 && "headers"@.len() == 7 && "value"@.len() == 5);
    let fields = record_fields(record, value);
    let headers = record.headers;
    let pairs = Seq::new(
        headers.len(),
        |i: int| (headers[i].0, JsonTree::Str(lossy(headers[i].1))),
    );
    lemma_text_fields(pairs);
    assert(shown(fields) =~= fields);
}

proof fn lemma_text_fields(pairs: Seq<(Seq<char>, JsonTree)>)
    requires
        forall|i: int| 0 <= i < pairs.len() ==> (#[trigger] pairs[i]).1 is Str,
    ensures
        map_of(pairs).dom().finite(),
        forall|name: Seq<char>| #[trigger]
            map_of(pairs).contains_key(name) ==> map_of(pairs)[name] is Str,
    decreases pairs.len(),
{
    if pairs.len() > 0 {
        lemma_text_fields(pairs.drop_last());
    }
}

/// What the JSON format encodes, it decodes to the same key, headers and value: for a key that
/// is a text or null, headers that are texts, and a value that is read back from its text.
pub proof fn law_json_decode_undoes_encode(
    message: Map<Seq<char>, JsonTree>,
    encoded_record: Encoded,
    reply: DecodeReply,
)
    requires
        builtin_encoded(false, JsonTree::Object(message)) == Ok::<Encoded, Seq<char>>(
            encoded_record,
        ),
        survives(message["value"@]),
        text_or_null(message, "key"@),
        text_headers(message),
    ensures
        decoded(
            Formatter::Json,
            Record {
                key: encoded_record.key,
                value: encoded_record.value,
                headers: encoded_record.headers,
            },
            reply,
        ) == Ok::<Map<Seq<char>, JsonTree>, Seq<char>>(shown(message)),
{
    let record = Record {
        key: encoded_record.key,
        value: encoded_record.value,
        headers: encoded_record.headers,
    };
    lemma_envelope_shown(message, record);
}

/// What the raw format encodes of a text, it decodes to the same key, headers and value: for a
/// key that is a text or null and headers that are texts.
pub proof fn law_raw_decode_undoes_encode(
    message: Map<Seq<char>, JsonTree>,
    encoded_record: Encoded,
    reply: DecodeReply,
)
    requires
        builtin_encoded(true, JsonTree::Object(message)) == Ok::<Encoded, Seq<char>>(
            encoded_record,
        ),
        message["value"@] is Str,
        text_or_null(message, "key"@),
        text_headers(message),
    ensures
        decoded(
            Formatter::Raw,
            Record {
                key: encoded_record.key,
                value: encoded_record.value,
                headers: encoded_record.headers,
            },
            reply,
        ) == Ok::<Map<Seq<char>, JsonTree>, Seq<char>>(shown(message)),
{
    let record = Record {
        key: encoded_record.key,
        value: encoded_record.value,
        headers: encoded_record.headers,
    };
    lemma_envelope_shown(message, record);
    law_lossy_reads_back(message["value"@]->Str_0);
}

/// The built-in formats encode a message by its key, headers and value alone: messages that
/// agree on those encode alike, whatever other fields they have.
pub proof fn law_encode_ignores_other_fields(
    raw: bool,
    message: Map<Seq<char>, JsonTree>,
    name: Seq<char>,
    tree: JsonTree,
)
    requires
        name != "key"@,
        name != "headers"@,
        name != "value"@,
    ensures
        builtin_encoded(raw, JsonTree::Object(message.insert(name, tree))) == builtin_encoded(
            raw,
            JsonTree::Object(message),
        ),
{
}

/// The headers of a record stand under their names: a name is there just where a header has it,
/// with the text of the last header of that name.
pub proof fn law_headers_by_name(
    headers: Seq<(Seq<char>, Seq<u8>)>,
    name: Seq<char>,
    last: int,
)
    requires
        -1 <= last < headers.len(),
        last >= 0 ==> headers[last].0 == name,
        forall|j: int| last < j < headers.len() ==> (#[trigger] headers[j]).0 != name,
    ensures
        last < 0 ==> !header_fields(headers).contains_key(name),
        last >= 0 ==> header_fields(headers).contains_key(name) && header_fields(headers)[name]
            == JsonTree::Str(lossy(headers[last].1)),
    decreases headers.len(),
{
    if headers.len() == 0 {
        assert(Seq::new(
            headers.len(),
            |i: int| (headers[i].0, JsonTree::Str(lossy(headers[i].1))),
        ) =~= Seq::empty());
    } else {
        let rest = headers.drop_last();
        let end = headers.last();
        assert(rest.push(end) =~= headers);
        law_last_header_counts(rest, end.0, end.1);
        if last < rest.len() {
            assert(headers[headers.len() - 1].0 != name);
            assert forall|j: int| last < j < rest.len() implies (#[trigger] rest[j]).0
                != name by {
                assert(headers[j].0 != name);
            }
            law_headers_by_name(rest, name, last);
        }
    }
}

/// A built-in format shows of a record its key, its headers and its value, and nothing else. The
/// key is its text, or null without one. In the JSON format the value is what its bytes are read
/// as, and a value that is no JSON is an error; in the raw format it is the text of the bytes. A
/// record without a value shows null.
pub proof fn law_record_is_shown(record: Record, reply: DecodeReply, name: Seq<char>)
    ensures
        decoded(Formatter::Raw, record, reply) is Ok,
        decoded(Formatter::Json, record, reply) is Err <==> (record.value matches Some(bytes)
            && json_parse(bytes) is Err),
        record.value matches Some(bytes) ==> json_parse(bytes) matches Err(e) ==> decoded(
            Formatter::Json,
            record,
            reply,
        ) == Err::<Map<Seq<char>, JsonTree>, Seq<char>>(e),
        decoded(Formatter::Json, record, reply) matches Ok(fields) ==> {
            &&& fields.contains_key(name) <==> name == "key"@ || name == "headers"@ || name
                == "value"@
            &&& fields["key"@] == (match record.key {
                Some(bytes) => JsonTree::Str(lossy(bytes)),
                None => JsonTree::Null,
            })
            &&& fields["headers"@] == JsonTree::Object(header_fields(record.headers))
            &&& record.value matches Some(bytes) ==> json_parse(bytes) == Ok::<
                JsonTree,
                Seq<char>,
            >(fields["value"@])
            &&& record.value is None ==> fields["value"@] == JsonTree::Null
        },
        decoded(Formatter::Raw, record, reply) matches Ok(fields) ==> {
            &&& fields.contains_key(name) <==> name == "key"@ || name == "headers"@ || name
                == "value"@
            &&& fields["key"@] == (match record.key {
                Some(bytes) => JsonTree::Str(lossy(bytes)),
                None => JsonTree::Null,
            })
            &&& fields["headers"@] == JsonTree::Object(header_fields(record.headers))
            &&& fields["value"@] == (match record.value {
                Some(bytes) => JsonTree::Str(lossy(bytes)),
                None => JsonTree::Null,
            })
        },
{
    lemma_record_fields_shown(record, JsonTree::Null);
    reveal_strlit("key");
    reveal_strlit("headers");
    reveal_strlit("value");
    assert("key"@.len() == 3 && "headers"@.len() == 7 && "value"@.len() == 5);
}

/// The fields of a decoded value are those of an object, as they are; any other value is the one
/// field `value`.
pub proof fn law_other_values_are_one_field(tree: JsonTree, name: Seq<char>)
    ensures
        tree matches JsonTree::Object(fields) ==> decoded_fields(tree) == fields,
        tree !is Object ==> (decoded_fields(tree).contains_key(name) <==> name == "value"@),
        tree !is Object ==> decoded_fields(tree)["value"@] == tree,
{
}

/// A built-in format refuses a message just where it is no object or has no value.
pub proof fn law_messages_need_a_value(raw: bool, line: JsonTree)
    ensures
        builtin_encoded(raw, line) is Ok <==> (line matches JsonTree::Object(message)
            && message.contains_key("value"@)),
{
}

/// A message without a key, or with null, has no key, and only such a message. A text is a key by
/// its UTF-8, and any other value by the UTF-8 of its JSON text. No partition is asked for.
pub proof fn law_every_key_is_kept(raw: bool, message: Map<Seq<char>, JsonTree>)
    requires
        message.contains_key("value"@),
    ensures
        ({
            let record = builtin_encoded(raw, JsonTree::Object(message))->Ok_0;
            let key = message["key"@];
            &&& record.key is None <==> !message.contains_key("key"@) || key is Null
            &&& message.contains_key("key"@) && key is Str ==> record.key == Some(
                encode_utf8(key->Str_0),
            )
            &&& message.contains_key("key"@) && key !is Null && key !is Str ==> record.key == Some(
                encode_utf8(json_text(key)),
            )
            &&& record.partition == -1
        }),
{
}

/// The value of a message is its JSON text; in the raw format a text is its own UTF-8.
pub proof fn law_every_value_is_kept(raw: bool, message: Map<Seq<char>, JsonTree>)
    requires
        message.contains_key("value"@),
    ensures
        ({
            let record = builtin_encoded(raw, JsonTree::Object(message))->Ok_0;
            let value = message["value"@];
            &&& record.value is Some
            &&& !raw || (value !is Str && value !is Null) ==> record.value == Some(
                encode_utf8(json_text(value)),
            )
            &&& raw && value is Str ==> record.value == Some(encode_utf8(value->Str_0))
            &&& raw && value is Null ==> record.value == Some(encode_utf8("null"@))
        }),
{
}

/// Each field of a message's headers is one header, in ascending order of the names and none
/// twice: a text by its UTF-8, null as empty bytes, any other value by the UTF-8 of its JSON text.
/// Headers that are no object are none.
pub proof fn law_every_header_is_kept(
    raw: bool,
    message: Map<Seq<char>, JsonTree>,
    fields: Map<Seq<char>, JsonTree>,
    name: Seq<char>,
)
    requires
        message.contains_key("value"@),
        fields.dom().finite(),
    ensures
        ({
            let headers = builtin_encoded(raw, JsonTree::Object(message))->Ok_0.headers;
            &&& !message.contains_key("headers"@) || message["headers"@] !is Object
                ==> headers.len() == 0
            &&& message.contains_key("headers"@) && message["headers"@] == JsonTree::Object(fields)
                ==> {
                &&& fields.contains_key(name) <==> exists|i: int|
                    0 <= i < headers.len() && (#[trigger] headers[i]).0 == name
                &&& forall|i: int|
                    0 <= i < headers.len() ==> match fields[(#[trigger] headers[i]).0] {
                        JsonTree::Str(text) => headers[i].1 == encode_utf8(text),
                        JsonTree::Null => headers[i].1.len() == 0,
                        other => headers[i].1 == encode_utf8(json_text(other)),
                    }
                &&& forall|i: int, j: int|
                    0 <= i < j < headers.len() ==> text_less(
                        (#[trigger] headers[i]).0,
                        (#[trigger] headers[j]).0,
                    )
            }
        }),
{
    let headers = builtin_encoded(raw, JsonTree::Object(message))->Ok_0.headers;
    if message.contains_key("headers"@) && message["headers"@] == JsonTree::Object(fields) {
        let names = ascending_names(fields.dom());
        lemma_ascending_names_list(fields.dom());
        assert forall|i: int, j: int| 0 <= i < j < headers.len() implies text_less(
            (#[trigger] headers[i]).0,
            (#[trigger] headers[j]).0,
        ) by {
            assert(name_order()(names[i], names[j]));
        }
        if fields.contains_key(name) {
            assert(fields.dom().contains(name));
            let i = choose|i: int| 0 <= i < names.len() && names[i] == name;
            assert(headers[i].0 == name);
        }
        if exists|i: int| 0 <= i < headers.len() && (#[trigger] headers[i]).0 == name {
            let i = choose|i: int| 0 <= i < headers.len() && (#[trigger] headers[i]).0 == name;
            assert(names.contains(names[i]));
            assert(fields.dom().contains(name));
        }
    }
}

/// A format is chosen by its name: `json`, `raw`, or a path that ends in `.wasm`, which is then the
/// path of the component. No other text chooses one.
pub proof fn law_formats_by_name(text: Seq<char>, format: Formatter)
    ensures
        names_format(text) <==> text == "json"@ || text == "raw"@ || (text.len() >= 5
            && text.subrange(text.len() - 5, text.len() as int) == ".wasm"@),
        chosen(text, format) ==> names_format(text),
        chosen(text, format) && format is Json ==> text == "json"@,
        chosen(text, format) && format is Raw ==> text == "raw"@,
        chosen(text, format) ==> (format matches Formatter::Wasm(plugin) ==> plugin.path@ == text
            && text != "json"@ && text != "raw"@),
{
    reveal_strlit(".wasm");
    if text.len() >= 5 {
        assert(text.skip(text.len() - 5) =~= text.subrange(text.len() - 5, text.len() as int));
    }
}

/// What is told of bytes, of headers and of encoded records is what they hold: absent bytes are
/// told apart from empty ones, and every header has its name and bytes, in order.
pub proof fn law_contents_are_told(bytes: Option<Vec<u8>>, record: EncodedRecord)
    ensures
        bytes matches Some(b) ==> bytes_view(bytes) == Some(b@),
        bytes is None ==> bytes_view(bytes) is None,
        record@.key == bytes_view(record.key),
        record@.value == bytes_view(record.value),
        record@.partition == record.partition,
        record@.headers.len() == record.headers@.len(),
        forall|i: int|
            0 <= i < record.headers@.len() ==> (#[trigger] record@.headers[i]).0
                == record.headers@[i].0@ && record@.headers[i].1 == record.headers@[i].1@,
{
}

/// What is told of a record that a formatter sees is what it holds.
pub proof fn law_record_contents_are_told(record: RecordView<'_>)
    ensures
        record.key matches Some(bytes) ==> record.content().key == Some(bytes@),
        record.key is None ==> record.content().key is None,
        record.value matches Some(bytes) ==> record.content().value == Some(bytes@),
        record.value is None ==> record.content().value is None,
        record.content().headers.len() == record.headers@.len(),
        forall|i: int|
            0 <= i < record.headers@.len() ==> (#[trigger] record.content().headers[i]).0
                == record.headers@[i].0@ && record.content().headers[i].1 == record.headers@[i].1@,
{
}

} // verus!
