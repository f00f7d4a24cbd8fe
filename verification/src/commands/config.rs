//! Configuration of a topic or a broker.

use vstd::prelude::*;
use vstd::string::*;

use crate::error::Error;
use crate::json::{Json, JsonTree};
use crate::text::{
    decimal, law_decimal_keeps_integers, lowercase, parse_i32, same_text, signed_value,
};

verus! {

/// What the `config` command is asked.
#[derive(Debug)]
pub struct Args {
    /// resource type: topic, broker, broker_logger
    pub resource: String,
    /// resource name (topic name or broker ID)
    pub resource_name: String,
}

/// Where a configuration value comes from.
#[derive(Clone, Copy, Debug, PartialEq, Eq)]
pub enum ConfigSource {
    Unknown,
    DynamicTopic,
    DynamicBroker,
    DynamicDefaultBroker,
    StaticBroker,
    Default,
}

/// The admin protocol's label of a source.
pub open spec fn label_of(source: ConfigSource) -> Seq<char> {
    match source {
        ConfigSource::Unknown => "UNKNOWN_CONFIG"@,
        ConfigSource::DynamicTopic => "DYNAMIC_TOPIC_CONFIG"@,
        ConfigSource::DynamicBroker => "DYNAMIC_BROKER_CONFIG"@,
        ConfigSource::DynamicDefaultBroker => "DYNAMIC_DEFAULT_BROKER_CONFIG"@,
        ConfigSource::StaticBroker => "STATIC_BROKER_CONFIG"@,
        ConfigSource::Default => "DEFAULT_CONFIG"@,
    }
}

/// The admin protocol's label of a source.
pub fn source_label(source: ConfigSource) -> (r: &'static str)
    ensures
        r@ == label_of(source),
{
    match source {
        ConfigSource::Unknown => "UNKNOWN_CONFIG",
        ConfigSource::DynamicTopic => "DYNAMIC_TOPIC_CONFIG",
        ConfigSource::DynamicBroker => "DYNAMIC_BROKER_CONFIG",
        ConfigSource::DynamicDefaultBroker => "DYNAMIC_DEFAULT_BROKER_CONFIG",
        ConfigSource::StaticBroker => "STATIC_BROKER_CONFIG",
        ConfigSource::Default => "DEFAULT_CONFIG",
    }
}

/// Kafka's name of a resource type, whatever the case it is written in.
pub open spec fn resource_kind(raw: Seq<char>) -> Option<Seq<char>> {
    let lower = lowercase(raw);
    if lower == "topic"@ {
        Some("TOPIC"@)
    } else if lower == "broker"@ {
        Some("BROKER"@)
    } else if lower == "broker_logger"@ || lower == "logger"@ {
        Some("BROKER_LOGGER"@)
    } else if lower == "any"@ {
        Some("UNKNOWN"@)
    } else {
        None
    }
}

/// Kafka's name of a resource type.
pub fn normalize_resource(resource: &str) -> (r: Result<&'static str, Error>)
    ensures
        match r {
            Ok(kind) => resource_kind(resource@) == Some(kind@),
            Err(e) => resource_kind(resource@) is None && e@ == "Unsupported resource type: "@
                + lowercase(resource@),
        },
{
    let lower = resource.to_ascii_lowercase();
    let lower = lower.as_str();
    if same_text(lower, "topic") {
        Ok("TOPIC")
    } else if same_text(lower, "broker") {
        Ok("BROKER")
    } else if same_text(lower, "broker_logger") || same_text(lower, "logger") {
        Ok("BROKER_LOGGER")
    } else if same_text(lower, "any") {
        Ok("UNKNOWN")
    } else {
        let mut message = "Unsupported resource type: ".to_owned();
        message.append(lower);
        Err(Error::new(message))
    }
}

/// The resource that is described.
#[derive(Debug)]
pub enum Resource<'a> {
    Topic(&'a str),
    Broker(i32),
}

/// What a resource is.
pub enum ResourceName {
    Topic(Seq<char>),
    Broker(int),
}

impl View for Resource<'_> {
    type V = ResourceName;

    open spec fn view(&self) -> ResourceName {
        match self {
            Resource::Topic(name) => ResourceName::Topic(name@),
            Resource::Broker(id) => ResourceName::Broker(*id as int),
        }
    }
}

/// The resource of a type with a name, or why it cannot be described. A broker's name is its
/// number.
pub open spec fn resource_named(kind: Seq<char>, name: Seq<char>) -> Result<
    ResourceName,
    Seq<char>,
> {
    if kind == "TOPIC"@ {
        Ok(ResourceName::Topic(name))
    } else if kind == "BROKER"@ {
        match signed_value(name) {
            Some(id) => if i32::MIN <= id <= i32::MAX {
                Ok(ResourceName::Broker(id))
            } else {
                Err("Broker resource name must be a numeric ID"@)
            },
            None => Err("Broker resource name must be a numeric ID"@),
        }
    } else {
        Err("Resource type "@ + kind + " is not supported by rdkafka admin client"@)
    }
}

/// The resource of a type with a name.
pub fn resource_specifier<'a>(kind: &str, name: &'a str) -> (r: Result<Resource<'a>, Error>)
    ensures
        match r {
            Ok(resource) => resource_named(kind@, name@) == Ok::<ResourceName, Seq<char>>(
                resource@,
            ),
            Err(e) => resource_named(kind@, name@) == Err::<ResourceName, Seq<char>>(e@),
        },
{
    if same_text(kind, "TOPIC") {
        Ok(Resource::Topic(name))
    } else if same_text(kind, "BROKER") {
        match parse_i32(name) {
            Some(id) => Ok(Resource::Broker(id)),
            None => Err(Error::text("Broker resource name must be a numeric ID")),
        }
    } else {
        let mut message = "Resource type ".to_owned();
        message.append(kind);
        message.append(" is not supported by rdkafka admin client");
        Err(Error::new(message))
    }
}

/// A configuration entry as the broker tells it.
#[derive(Debug)]
pub struct DescribedEntry {
    pub name: String,
    pub value: Option<String>,
    pub is_read_only: bool,
    pub is_default: bool,
    pub is_sensitive: bool,
    pub source: ConfigSource,
}

/// A configuration entry as it is shown.
#[derive(Debug)]
pub struct ConfigEntry {
    pub name: String,
    pub value: Json,
    pub read_only: bool,
    pub is_default: bool,
    pub sensitive: bool,
    pub source: &'static str,
    pub synonyms: Vec<Json>,
}

/// The shown value of an entry; a sensitive or absent one is null.
pub open spec fn shown_value(entry: DescribedEntry) -> JsonTree {
    if entry.is_sensitive {
        JsonTree::Null
    } else {
        match entry.value {
            Some(text) => JsonTree::Str(text@),
            None => JsonTree::Null,
        }
    }
}

/// Whether an entry is shown as the broker tells it.
pub open spec fn shows_entry(shown: ConfigEntry, entry: DescribedEntry) -> bool {
    &&& shown.name@ == entry.name@
    &&& shown.value@ == shown_value(entry)
    &&& shown.read_only == entry.is_read_only
    &&& shown.is_default == entry.is_default
    &&& shown.sensitive == entry.is_sensitive
    &&& shown.source@ == label_of(entry.source)
    &&& shown.synonyms@.len() == 0
}

/// The shown form of an entry.
pub fn config_entry(entry: &DescribedEntry) -> (r: ConfigEntry)
    ensures
        shows_entry(r, *entry),
{
    ConfigEntry {
        name: entry.name.clone(),
        value: if entry.is_sensitive {
            Json::Null
        } else {
            match &entry.value {
                Some(text) => Json::Str(text.clone()),
                None => Json::Null,
            }
        },
        read_only: entry.is_read_only,
        is_default: entry.is_default,
        sensitive: entry.is_sensitive,
        source: source_label(entry.source),
        synonyms: Vec::new(),
    }
}

/// The configuration of a resource as it is shown.
#[derive(Debug)]
pub struct ResourceResult {
    pub resource_type: String,
    pub resource_name: String,
    pub configs: Vec<ConfigEntry>,
}

/// The shown configuration of a resource, with its entries in the order told, or an error that
/// tells why it could not be described.
pub fn describe_resource(
    kind: &str,
    name: &str,
    described: &Result<Vec<DescribedEntry>, String>,
) -> (r: Result<ResourceResult, Error>)
    ensures
        match (r, described) {
            (Ok(result), Ok(entries)) => {
                &&& result.resource_type@ == kind@
                &&& result.resource_name@ == name@
                &&& result.configs@.len() == entries@.len()
                &&& forall|i: int|
                    0 <= i < entries@.len() ==> shows_entry(
                        #[trigger] result.configs@[i],
                        entries@[i],
                    )
            },
            (Err(e), Err(code)) => e@ == "Failed to describe configs: "@ + code@,
            _ => false,
        },
{
    match described {
        Ok(entries) => {
            let mut configs: Vec<ConfigEntry> = Vec::new();
            let mut i: usize = 0;
            while i < entries.len()
                invariant
                    i <= entries@.len(),
                    configs@.len() == i,
                    forall|j: int|
                        0 <= j < i ==> shows_entry(#[trigger] configs@[j], entries@[j]),
                decreases entries.len() - i,
            {
                configs.push(config_entry(&entries[i]));
                i += 1;
            }
            Ok(
                ResourceResult {
                    resource_type: kind.to_owned(),
                    resource_name: name.to_owned(),
                    configs,
                },
            )
        },
        Err(code) => {
            let mut message = "Failed to describe configs: ".to_owned();
            message.append(code.as_str());
            Err(Error::new(message))
        },
    }
}

/// A resource type is known by its name in any case: `topic`, `broker`, `broker_logger` or
/// `logger`, and `any`; no other text is one.
pub proof fn law_resource_types_by_name(raw: Seq<char>)
    ensures
        lowercase(raw) == "topic"@ ==> resource_kind(raw) == Some("TOPIC"@),
        lowercase(raw) == "broker"@ ==> resource_kind(raw) == Some("BROKER"@),
        lowercase(raw) == "broker_logger"@ ==> resource_kind(raw) == Some("BROKER_LOGGER"@),
        lowercase(raw) == "logger"@ ==> resource_kind(raw) == Some("BROKER_LOGGER"@),
        lowercase(raw) == "any"@ ==> resource_kind(raw) == Some("UNKNOWN"@),
        lowercase(raw) != "topic"@ && lowercase(raw) != "broker"@ && lowercase(raw)
            != "broker_logger"@ && lowercase(raw) != "logger"@ && lowercase(raw) != "any"@
            ==> resource_kind(raw) is None,
{
    reveal_strlit("topic");
    reveal_strlit("broker");
    reveal_strlit("broker_logger");
    reveal_strlit("logger");
    reveal_strlit("any");
    assert("topic"@.len() == 5 && "broker"@.len() == 6 && "broker_logger"@.len() == 13
        && "logger"@.len() == 6 && "any"@.len() == 3);
    assert("broker"@[0] != "logger"@[0]);
}

/// A topic is described under any name. A broker is described under the decimal text of its
/// number, and under no name that is not a number of 32 bits; no other resource is described.
pub proof fn law_resources_by_name(kind: Seq<char>, name: Seq<char>, id: i32)
    ensures
        resource_named("TOPIC"@, name) == Ok::<ResourceName, Seq<char>>(ResourceName::Topic(name)),
        resource_named("BROKER"@, decimal(id as int)) == Ok::<ResourceName, Seq<char>>(
            ResourceName::Broker(id as int),
        ),
        resource_named("BROKER"@, name) matches Ok(resource) ==> (resource matches ResourceName::Broker(
            n,
        ) && signed_value(name) == Some(n) && i32::MIN <= n <= i32::MAX),
        resource_named("BROKER"@, name) is Ok <==> (signed_value(name) matches Some(n) && i32::MIN
            <= n <= i32::MAX),
        kind != "TOPIC"@ && kind != "BROKER"@ ==> resource_named(kind, name) is Err,
{
    reveal_strlit("TOPIC");
    reveal_strlit("BROKER");
    assert("TOPIC"@.len() == 5 && "BROKER"@.len() == 6);
    law_decimal_keeps_integers(id as int);
}

/// A sensitive value is never shown; any other is shown as it is, and null where there is none.
/// All else of an entry is shown as the broker tells it, with the admin protocol's label of its
/// source.
pub proof fn law_sensitive_values_are_hidden(shown: ConfigEntry, entry: DescribedEntry)
    requires
        shows_entry(shown, entry),
    ensures
        entry.is_sensitive ==> shown.value@ == JsonTree::Null,
        !entry.is_sensitive ==> shown.value@ == (match entry.value {
            Some(text) => JsonTree::Str(text@),
            None => JsonTree::Null,
        }),
        shown.name@ == entry.name@,
        shown.read_only == entry.is_read_only,
        shown.is_default == entry.is_default,
        shown.sensitive == entry.is_sensitive,
        shown.source@ == (match entry.source {
            ConfigSource::Unknown => "UNKNOWN_CONFIG"@,
            ConfigSource::DynamicTopic => "DYNAMIC_TOPIC_CONFIG"@,
            ConfigSource::DynamicBroker => "DYNAMIC_BROKER_CONFIG"@,
            ConfigSource::DynamicDefaultBroker => "DYNAMIC_DEFAULT_BROKER_CONFIG"@,
            ConfigSource::StaticBroker => "STATIC_BROKER_CONFIG"@,
            ConfigSource::Default => "DEFAULT_CONFIG"@,
        }),
{
}

/// What is told of a resource is what it holds.
pub proof fn law_resource_contents_are_told(resource: Resource<'_>)
    ensures
        resource matches Resource::Topic(name) ==> resource@ == ResourceName::Topic(name@),
        resource matches Resource::Broker(id) ==> resource@ == ResourceName::Broker(id as int),
{
}

} // verus!
