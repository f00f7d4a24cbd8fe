//! Connection options and the client configuration that they ask for.

use std::time::{Duration, SystemTime};

use rdkafka::ClientConfig;
use vstd::prelude::*;
use vstd::string::*;

use crate::clock::{duration_nanos, epoch_millis, read_clock, reading_millis};
use crate::error::Error;
use crate::text::{decimal, decimal_u64, find_char, lowercase, same_text};

verus! {

/// The client configuration of `rdkafka`; opaque.
#[verifier::external_type_specification]
#[verifier::external_body]
pub struct ExClientConfig(rdkafka::ClientConfig);

/// The settings that a client configuration holds.
pub uninterp spec fn config_entries(config: ClientConfig) -> Map<Seq<char>, Seq<char>>;

/// No settings.
pub open spec fn no_entries() -> Map<Seq<char>, Seq<char>> {
    Map::empty()
}

/// `ClientConfig::new` makes a configuration without settings.
pub assume_specification[ ClientConfig::new ]() -> (r: ClientConfig)
    ensures
        config_entries(r) == no_entries(),
;

/// `ClientConfig::set` gives a setting a value; an earlier value of that setting is replaced.
#[verifier::external_body]
pub(crate) fn set_entry(config: &mut ClientConfig, name: &str, value: &str)
    ensures
        config_entries(*final(config)) == config_entries(*old(config)).insert(name@, value@),
{
    config.set(name, value);
}

/// `ClientConfig::clone` makes a configuration with the same settings.
#[verifier::external_body]
fn copy_config(config: &ClientConfig) -> (r: ClientConfig)
    ensures
        config_entries(r) == config_entries(*config),
{
    config.clone()
}

/// The options that every command takes.
#[derive(Clone, Debug)]
pub struct GlobalOptions {
    pub brokers: String,
    pub timeout_ms: u64,
    pub ssl: bool,
    pub insecure: bool,
    pub mechanism: Option<String>,
    pub username: Option<String>,
    pub password: Option<String>,
    pub oauth_bearer: Option<String>,
    pub oauth_principal: Option<String>,
    pub oauth_expiry_ms: Option<i64>,
    pub oidc_token_url: Option<String>,
    pub oidc_client_id: Option<String>,
    pub oidc_client_secret: Option<String>,
    pub oidc_scope: Option<String>,
    pub oidc_extensions: Option<String>,
}

/// The text of an optional option.
pub open spec fn option_text(option: Option<String>) -> Option<Seq<char>> {
    match option {
        Some(text) => Some(text@),
        None => None,
    }
}

/// The milliseconds that a request may take: 30 seconds where no timeout is set.
pub open spec fn request_millis(timeout_ms: u64) -> nat {
    if timeout_ms == 0 {
        30_000
    } else {
        timeout_ms as nat
    }
}

impl GlobalOptions {
    /// How long a request may take.
    pub fn operation_timeout(&self) -> (r: Duration)
        ensures
            duration_nanos(r) == request_millis(self.timeout_ms) * 1_000_000,
    {
        if self.timeout_ms == 0 {
            Duration::from_secs(30)
        } else {
            Duration::from_millis(self.timeout_ms)
        }
    }

    /// How long a stream may be read; without end where no timeout is set.
    pub fn stream_deadline(&self) -> (r: Option<Duration>)
        ensures
            match r {
                Some(span) => self.timeout_ms > 0 && duration_nanos(span) == self.timeout_ms
                    * 1_000_000,
                None => self.timeout_ms == 0,
            },
    {
        if self.timeout_ms > 0 {
            Some(Duration::from_millis(self.timeout_ms))
        } else {
            None
        }
    }
}

/// A static OAUTHBEARER token.
#[derive(Debug)]
pub struct StaticOAuth<'a> {
    pub token: &'a str,
    pub principal: &'a str,
    pub expiry_ms: i64,
}

/// What a static token says.
pub struct Token {
    pub token: Seq<char>,
    pub principal: Seq<char>,
    pub expiry_ms: int,
}

impl View for StaticOAuth<'_> {
    type V = Token;

    open spec fn view(&self) -> Token {
        Token {
            token: self.token@,
            principal: self.principal@,
            expiry_ms: self.expiry_ms as int,
        }
    }
}

/// Kafka's name of a SASL mechanism, whatever the case it is written in.
pub open spec fn mechanism_name(raw: Seq<char>) -> Option<Seq<char>> {
    let lower = lowercase(raw);
    if lower == "plain"@ {
        Some("PLAIN"@)
    } else if lower == "scram-sha-256"@ {
        Some("SCRAM-SHA-256"@)
    } else if lower == "scram-sha-512"@ {
        Some("SCRAM-SHA-512"@)
    } else if lower == "oauthbearer"@ {
        Some("OAUTHBEARER"@)
    } else {
        None
    }
}

/// Kafka's name of a SASL mechanism.
pub fn normalize_mechanism(raw: &str) -> (r: Result<&'static str, Error>)
    ensures
        match r {
            Ok(name) => mechanism_name(raw@) == Some(name@),
            Err(e) => mechanism_name(raw@) is None && e@ == "Unsupported SASL mechanism: "@
                + lowercase(raw@),
        },
{
    let lower = raw.to_ascii_lowercase();
    let lower = lower.as_str();
    if same_text(lower, "plain") {
        Ok("PLAIN")
    } else if same_text(lower, "scram-sha-256") {
        Ok("SCRAM-SHA-256")
    } else if same_text(lower, "scram-sha-512") {
        Ok("SCRAM-SHA-512")
    } else if same_text(lower, "oauthbearer") {
        Ok("OAUTHBEARER")
    } else {
        let mut message = "Unsupported SASL mechanism: ".to_owned();
        message.append(lower);
        Err(Error::new(message))
    }
}

/// A clock reading as a timestamp: the milliseconds that fit, or why there is none.
pub open spec fn clock_millis(reading: Result<u128, String>) -> Result<int, Seq<char>> {
    match reading {
        Ok(millis) => if millis <= i64::MAX {
            Ok(millis as int)
        } else {
            Err("Current timestamp does not fit in i64"@)
        },
        Err(e) => Err("System clock is before the Unix epoch: "@ + e@),
    }
}

/// What a result with an error text says.
pub open spec fn timestamp_view(result: Result<i64, Error>) -> Result<int, Seq<char>> {
    match result {
        Ok(n) => Ok(n as int),
        Err(e) => Err(e@),
    }
}

/// The timestamp that a clock reading gives.
pub fn timestamp_of(reading: Result<u128, String>) -> (r: Result<i64, Error>)
    ensures
        timestamp_view(r) == clock_millis(reading),
{
    match reading {
        Ok(millis) => if millis <= i64::MAX as u128 {
            Ok(millis as i64)
        } else {
            Err(Error::text("Current timestamp does not fit in i64"))
        },
        Err(e) => {
            let mut message = "System clock is before the Unix epoch: ".to_owned();
            message.append(e.as_str());
            Err(Error::new(message))
        },
    }
}

/// The current time in milliseconds since the Unix epoch. Which time the clock shows is left open.
pub fn now_millis() -> (r: Result<i64, Error>)
    ensures
        exists|time: SystemTime, reading: Result<u128, String>|
            reading_millis(reading) == #[trigger] epoch_millis(time) && timestamp_view(r)
                == #[trigger] clock_millis(reading),
{
    let reading = read_clock();
    let ghost seen = reading;
    let r = timestamp_of(reading);
    assert(timestamp_view(r) == clock_millis(seen));
    r
}

/// The static token that the options hold at a time, or what is wrong with them. The time counts
/// only where token, principal and expiry are all given.
pub open spec fn static_token(opts: GlobalOptions, now: Result<int, Seq<char>>) -> Result<
    Option<Token>,
    Seq<char>,
> {
    match (option_text(opts.oauth_bearer), option_text(opts.oauth_principal), opts.oauth_expiry_ms) {
        (None, None, None) => Ok(None),
        (Some(token), Some(principal), Some(expiry)) => if token.len() == 0 {
            Err("--oauth-bearer must not be empty"@)
        } else if principal.len() == 0 {
            Err("--oauth-principal must not be empty"@)
        } else {
            match now {
                Err(e) => Err(e),
                Ok(time) => if expiry <= time {
                    Err("--oauth-expiry-ms must be a future Unix timestamp in milliseconds"@)
                } else {
                    Ok(Some(Token { token, principal, expiry_ms: expiry as int }))
                },
            }
        },
        _ => Err(
            "--oauth-bearer, --oauth-principal, and --oauth-expiry-ms must be provided together"@,
        ),
    }
}

/// What a token result says.
pub open spec fn token_view(result: Result<Option<StaticOAuth<'_>>, Error>) -> Result<
    Option<Token>,
    Seq<char>,
> {
    match result {
        Ok(Some(token)) => Ok(Some(token@)),
        Ok(None) => Ok(None),
        Err(e) => Err(e@),
    }
}

/// The static token that the options hold at a given time.
pub fn static_oauth_at(opts: &GlobalOptions, now: Result<i64, Error>) -> (r: Result<
    Option<StaticOAuth<'_>>,
    Error,
>)
    ensures
        token_view(r) == static_token(*opts, timestamp_view(now)),
{
    match (&opts.oauth_bearer, &opts.oauth_principal, opts.oauth_expiry_ms) {
        (None, None, None) => Ok(None),
        (Some(token), Some(principal), Some(expiry_ms)) => {
            let token = token.as_str();
            let principal = principal.as_str();
            if token.is_empty() {
                return Err(Error::text("--oauth-bearer must not be empty"));
            }
            if principal.is_empty() {
                return Err(Error::text("--oauth-principal must not be empty"));
            }
            match now {
                Err(e) => Err(e),
                Ok(time) => if expiry_ms <= time {
                    Err(
                        Error::text(
                            "--oauth-expiry-ms must be a future Unix timestamp in milliseconds",
                        ),
                    )
                } else {
                    Ok(Some(StaticOAuth { token, principal, expiry_ms }))
                },
            }
        },
        _ => Err(
            Error::text(
                "--oauth-bearer, --oauth-principal, and --oauth-expiry-ms must be provided together",
            ),
        ),
    }
}

/// Whether any OIDC option is given.
pub open spec fn asks_oidc(opts: GlobalOptions) -> bool {
    opts.oidc_token_url is Some || opts.oidc_client_id is Some || opts.oidc_client_secret is Some
        || opts.oidc_scope is Some || opts.oidc_extensions is Some
}

/// Whether any OIDC option is given.
pub fn oidc_requested(opts: &GlobalOptions) -> (r: bool)
    ensures
        r == asks_oidc(*opts),
{
    opts.oidc_token_url.is_some() || opts.oidc_client_id.is_some()
        || opts.oidc_client_secret.is_some() || opts.oidc_scope.is_some()
        || opts.oidc_extensions.is_some()
}

/// Settings with one more, if it is given.
pub open spec fn with_option(
    entries: Map<Seq<char>, Seq<char>>,
    name: Seq<char>,
    option: Option<String>,
) -> Map<Seq<char>, Seq<char>> {
    match option {
        Some(text) => entries.insert(name, text@),
        None => entries,
    }
}

/// Gives a setting a value, if there is one.
pub(crate) fn set_option(config: &mut ClientConfig, name: &str, option: &Option<String>)
    ensures
        config_entries(*final(config)) == with_option(config_entries(*old(config)), name@, *option),
{
    if let Some(text) = option {
        set_entry(config, name, text.as_str());
    }
}

/// The settings of the OIDC flow, or which required option is missing.
pub open spec fn oidc_entries(opts: GlobalOptions, entries: Map<Seq<char>, Seq<char>>) -> Result<
    Map<Seq<char>, Seq<char>>,
    Seq<char>,
> {
    match (opts.oidc_token_url, opts.oidc_client_id, opts.oidc_client_secret) {
        (None, _, _) => Err("--oidc-token-url is required when using SASL OAUTHBEARER OIDC"@),
        (_, None, _) => Err("--oidc-client-id is required when using SASL OAUTHBEARER OIDC"@),
        (_, _, None) => Err("--oidc-client-secret is required when using SASL OAUTHBEARER OIDC"@),
        (Some(url), Some(id), Some(secret)) => Ok(
            with_option(
                with_option(
                    entries.insert("sasl.oauthbearer.method"@, "oidc"@).insert(
                        "sasl.oauthbearer.token.endpoint.url"@,
                        url@,
                    ).insert("sasl.oauthbearer.client.id"@, id@).insert(
                        "sasl.oauthbearer.client.secret"@,
                        secret@,
                    ),
                    "sasl.oauthbearer.scope"@,
                    opts.oidc_scope,
                ),
                "sasl.oauthbearer.extensions"@,
                opts.oidc_extensions,
            ),
        ),
    }
}

fn set_oidc(config: &mut ClientConfig, opts: &GlobalOptions) -> (r: Result<(), Error>)
    ensures
        match r {
            Ok(_) => oidc_entries(*opts, config_entries(*old(config))) == Ok::<
                Map<Seq<char>, Seq<char>>,
                Seq<char>,
            >(config_entries(*final(config))),
            Err(e) => oidc_entries(*opts, config_entries(*old(config))) == Err::<
                Map<Seq<char>, Seq<char>>,
                Seq<char>,
            >(e@),
        },
{
    let url = match &opts.oidc_token_url {
        Some(url) => url.as_str(),
        None => {
            return Err(
                Error::text("--oidc-token-url is required when using SASL OAUTHBEARER OIDC"),
            );
        },
    };
    let id = match &opts.oidc_client_id {
        Some(id) => id.as_str(),
        None => {
            return Err(
                Error::text("--oidc-client-id is required when using SASL OAUTHBEARER OIDC"),
            );
        },
    };
    let secret = match &opts.oidc_client_secret {
        Some(secret) => secret.as_str(),
        None => {
            return Err(
                Error::text("--oidc-client-secret is required when using SASL OAUTHBEARER OIDC"),
            );
        },
    };
    set_entry(config, "sasl.oauthbearer.method", "oidc");
    set_entry(config, "sasl.oauthbearer.token.endpoint.url", url);
    set_entry(config, "sasl.oauthbearer.client.id", id);
    set_entry(config, "sasl.oauthbearer.client.secret", secret);
    set_option(config, "sasl.oauthbearer.scope", &opts.oidc_scope);
    set_option(config, "sasl.oauthbearer.extensions", &opts.oidc_extensions);
    Ok(())
}

/// The settings of authentication on top of others, or what is wrong with the options.
pub open spec fn sasl_entries(
    opts: GlobalOptions,
    has_token: bool,
    entries: Map<Seq<char>, Seq<char>>,
) -> Result<Map<Seq<char>, Seq<char>>, Seq<char>> {
    match option_text(opts.mechanism) {
        Some(raw) => match mechanism_name(raw) {
            Some(name) => {
                let named = entries.insert("sasl.mechanism"@, name);
                if name == "OAUTHBEARER"@ {
                    if asks_oidc(opts) {
                        oidc_entries(opts, named)
                    } else if has_token {
                        Ok(named)
                    } else {
                        Err(
                            "SASL OAUTHBEARER requires either static token options or OIDC options"@,
                        )
                    }
                } else if has_token || asks_oidc(opts) {
                    Err("OAuth options require --mechanism oauthbearer"@)
                } else {
                    Ok(
                        with_option(
                            with_option(named, "sasl.username"@, opts.username),
                            "sasl.password"@,
                            opts.password,
                        ),
                    )
                }
            },
            None => Err("Unsupported SASL mechanism: "@ + lowercase(raw)),
        },
        None => if has_token || asks_oidc(opts) {
            Err("OAuth options require --mechanism oauthbearer"@)
        } else {
            Ok(entries)
        },
    }
}

fn set_sasl(config: &mut ClientConfig, opts: &GlobalOptions, has_token: bool) -> (r: Result<
    (),
    Error,
>)
    ensures
        match r {
            Ok(_) => sasl_entries(*opts, has_token, config_entries(*old(config))) == Ok::<
                Map<Seq<char>, Seq<char>>,
                Seq<char>,
            >(config_entries(*final(config))),
            Err(e) => sasl_entries(*opts, has_token, config_entries(*old(config))) == Err::<
                Map<Seq<char>, Seq<char>>,
                Seq<char>,
            >(e@),
        },
{
    let oidc = oidc_requested(opts);
    match &opts.mechanism {
        Some(raw) => {
            let name = match normalize_mechanism(raw.as_str()) {
                Ok(name) => name,
                Err(e) => {
                    return Err(e);
                },
            };
            set_entry(config, "sasl.mechanism", name);
            if same_text(name, "OAUTHBEARER") {
                if oidc {
                    return set_oidc(config, opts);
                }
                if !has_token {
                    return Err(
                        Error::text(
                            "SASL OAUTHBEARER requires either static token options or OIDC options",
                        ),
                    );
                }
            } else {
                if has_token || oidc {
                    return Err(Error::text("OAuth options require --mechanism oauthbearer"));
                }
                set_option(config, "sasl.username", &opts.username);
                set_option(config, "sasl.password", &opts.password);
            }
            Ok(())
        },
        None => if has_token || oidc {
            Err(Error::text("OAuth options require --mechanism oauthbearer"))
        } else {
            Ok(())
        },
    }
}

/// The security protocol: SASL where a mechanism is given, over TLS where that is asked for.
pub open spec fn protocol_name(opts: GlobalOptions) -> Seq<char> {
    if opts.mechanism is Some {
        if opts.ssl {
            "SASL_SSL"@
        } else {
            "SASL_PLAINTEXT"@
        }
    } else if opts.ssl {
        "SSL"@
    } else {
        "PLAINTEXT"@
    }
}

/// Settings with those of the transport on top.
pub open spec fn transport_entries(opts: GlobalOptions, entries: Map<Seq<char>, Seq<char>>) -> Map<
    Seq<char>,
    Seq<char>,
> {
    let secured = entries.insert("security.protocol"@, protocol_name(opts));
    if opts.ssl && opts.insecure {
        secured.insert("enable.ssl.certificate.verification"@, "false"@)
    } else {
        secured
    }
}

/// The client settings that the options ask for at a time, or what is wrong with the options.
pub open spec fn client_entries(opts: GlobalOptions, now: Result<int, Seq<char>>) -> Result<
    Map<Seq<char>, Seq<char>>,
    Seq<char>,
> {
    let base = no_entries().insert("bootstrap.servers"@, opts.brokers@).insert(
        "client.id"@,
        "kafq"@,
    );
    match static_token(opts, now) {
        Err(e) => Err(e),
        Ok(token) => if token is Some && asks_oidc(opts) {
            Err("Static OAUTHBEARER and OIDC options are mutually exclusive"@)
        } else {
            match sasl_entries(opts, token is Some, base) {
                Err(e) => Err(e),
                Ok(entries) => Ok(transport_entries(opts, entries)),
            }
        },
    }
}

/// What a configuration result says.
pub open spec fn config_view(result: Result<ClientConfig, Error>) -> Result<
    Map<Seq<char>, Seq<char>>,
    Seq<char>,
> {
    match result {
        Ok(config) => Ok(config_entries(config)),
        Err(e) => Err(e@),
    }
}

/// The client configuration that the options ask for at a given time.
pub fn client_config_at(opts: &GlobalOptions, now: Result<i64, Error>) -> (r: Result<
    ClientConfig,
    Error,
>)
    ensures
        config_view(r) == client_entries(*opts, timestamp_view(now)),
{
    let mut config = ClientConfig::new();
    set_entry(&mut config, "bootstrap.servers", opts.brokers.as_str());
    set_entry(&mut config, "client.id", "kafq");
    let has_token = match static_oauth_at(opts, now) {
        Ok(token) => token.is_some(),
        Err(e) => {
            return Err(e);
        },
    };
    if has_token && oidc_requested(opts) {
        return Err(Error::text("Static OAUTHBEARER and OIDC options are mutually exclusive"));
    }
    match set_sasl(&mut config, opts, has_token) {
        Ok(_) => {},
        Err(e) => {
            return Err(e);
        },
    }
    let protocol = if opts.mechanism.is_some() {
        if opts.ssl {
            "SASL_SSL"
        } else {
            "SASL_PLAINTEXT"
        }
    } else if opts.ssl {
        "SSL"
    } else {
        "PLAINTEXT"
    };
    set_entry(&mut config, "security.protocol", protocol);
    if opts.ssl && opts.insecure {
        set_entry(&mut config, "enable.ssl.certificate.verification", "false");
    }
    Ok(config)
}

/// The client configuration that the options ask for now, at the time that the clock shows.
pub fn build_client_config(opts: &GlobalOptions) -> (r: Result<ClientConfig, Error>)
    ensures
        exists|time: SystemTime, reading: Result<u128, String>|
            reading_millis(reading) == #[trigger] epoch_millis(time) && config_view(r)
                == client_entries(*opts, #[trigger] clock_millis(reading)),
{
    let reading = read_clock();
    let ghost seen = reading;
    let r = client_config_at(opts, timestamp_of(reading));
    assert(config_view(r) == client_entries(*opts, clock_millis(seen)));
    r
}

/// What is wrong with a token that is to be handed over as C strings, or the token.
pub open spec fn installable(token: Result<Option<Token>, Seq<char>>) -> Result<
    Option<Token>,
    Seq<char>,
> {
    match token {
        Ok(Some(t)) => if t.token.contains('\0') {
            Err("--oauth-bearer must not contain a NUL byte"@)
        } else if t.principal.contains('\0') {
            Err("--oauth-principal must not contain a NUL byte"@)
        } else {
            Ok(Some(t))
        },
        other => other,
    }
}

/// The static token to install on a client at a given time, if the options hold one.
pub fn install_token_at(opts: &GlobalOptions, now: Result<i64, Error>) -> (r: Result<
    Option<StaticOAuth<'_>>,
    Error,
>)
    ensures
        token_view(r) == installable(static_token(*opts, timestamp_view(now))),
{
    match static_oauth_at(opts, now) {
        Ok(Some(oauth)) => if find_char(oauth.token, '\0').is_some() {
            Err(Error::text("--oauth-bearer must not contain a NUL byte"))
        } else if find_char(oauth.principal, '\0').is_some() {
            Err(Error::text("--oauth-principal must not contain a NUL byte"))
        } else {
            Ok(Some(oauth))
        },
        other => other,
    }
}

/// The static token to install on a client now, at the time that the clock shows, if the options
/// hold one.
pub fn install_token(opts: &GlobalOptions) -> (r: Result<Option<StaticOAuth<'_>>, Error>)
    ensures
        exists|time: SystemTime, reading: Result<u128, String>|
            reading_millis(reading) == #[trigger] epoch_millis(time) && token_view(r)
                == installable(static_token(*opts, #[trigger] clock_millis(reading))),
{
    let reading = read_clock();
    let ghost seen = reading;
    let r = install_token_at(opts, timestamp_of(reading));
    assert(token_view(r) == installable(static_token(*opts, clock_millis(seen))));
    r
}

/// The error for a token that a client would not take.
pub fn install_failure(code: &str, detail: &str) -> (r: Error)
    ensures
        r@ == "Failed to install static OAUTHBEARER token ("@ + code@ + "): "@ + detail@,
{
    let mut message = "Failed to install static OAUTHBEARER token (".to_owned();
    message.append(code);
    message.append("): ");
    message.append(detail);
    Error::new(message)
}

/// Settings with those of a producer on top: retries keep the order, and the timeout bounds
/// delivery; no timeout disables that bound.
pub open spec fn producer_entries(entries: Map<Seq<char>, Seq<char>>, timeout_ms: u64) -> Map<
    Seq<char>,
    Seq<char>,
> {
    entries.insert("enable.idempotence"@, "true"@).insert(
        "delivery.timeout.ms"@,
        decimal(timeout_ms as int),
    )
}

/// The configuration of a producer.
pub fn producer_config(config: &ClientConfig, opts: &GlobalOptions) -> (r: ClientConfig)
    ensures
        config_entries(r) == producer_entries(config_entries(*config), opts.timeout_ms),
{
    let mut config = copy_config(config);
    set_entry(&mut config, "enable.idempotence", "true");
    set_entry(&mut config, "delivery.timeout.ms", decimal_u64(opts.timeout_ms).as_str());
    config
}

/// Static OAUTHBEARER and OIDC options exclude each other.
pub proof fn law_static_token_excludes_oidc(opts: GlobalOptions, now: Result<int, Seq<char>>)
    requires
        opts.oauth_bearer is Some || opts.oauth_principal is Some || opts.oauth_expiry_ms is Some,
        asks_oidc(opts),
    ensures
        client_entries(opts, now) is Err,
{
}

/// OAuth options are refused unless the mechanism is `oauthbearer`.
pub proof fn law_oauth_needs_its_mechanism(opts: GlobalOptions, now: Result<int, Seq<char>>)
    requires
        opts.oauth_bearer is Some || opts.oauth_principal is Some || opts.oauth_expiry_ms is Some
            || asks_oidc(opts),
        match opts.mechanism {
            Some(raw) => lowercase(raw@) != "oauthbearer"@,
            None => true,
        },
    ensures
        client_entries(opts, now) is Err,
{
    reveal_strlit("PLAIN");
    reveal_strlit("SCRAM-SHA-256");
    reveal_strlit("SCRAM-SHA-512");
    reveal_strlit("OAUTHBEARER");
    assert("PLAIN"@.len() != "OAUTHBEARER"@.len());
    assert("SCRAM-SHA-256"@.len() != "OAUTHBEARER"@.len());
    assert("SCRAM-SHA-512"@.len() != "OAUTHBEARER"@.len());
}

/// A static token that has run out, is incomplete or has an empty part is refused.
pub proof fn law_static_token_is_complete_and_current(
    opts: GlobalOptions,
    now: Result<int, Seq<char>>,
)
    requires
        client_entries(opts, now) is Ok,
        opts.oauth_bearer is Some || opts.oauth_principal is Some || opts.oauth_expiry_ms is Some,
    ensures
        opts.oauth_bearer matches Some(token) && token@.len() > 0,
        opts.oauth_principal matches Some(principal) && principal@.len() > 0,
        opts.oauth_expiry_ms matches Some(expiry) && now matches Ok(time) && expiry > time,
{
}

/// The time counts only where a static token is given.
pub proof fn law_time_counts_for_tokens_only(
    opts: GlobalOptions,
    now: Result<int, Seq<char>>,
    later: Result<int, Seq<char>>,
)
    requires
        opts.oauth_bearer is None || opts.oauth_principal is None || opts.oauth_expiry_ms is None,
    ensures
        client_entries(opts, now) == client_entries(opts, later),
{
}

/// Certificates go unverified only over TLS and when that is asked for; the transport is the one
/// that the options select; and the brokers are the ones given.
pub proof fn law_transport_settings(opts: GlobalOptions, now: Result<int, Seq<char>>)
    requires
        client_entries(opts, now) is Ok,
    ensures
        ({
            let entries = client_entries(opts, now)->Ok_0;
            &&& entries.contains_key("bootstrap.servers"@)
            &&& entries["bootstrap.servers"@] == opts.brokers@
            &&& entries.contains_key("security.protocol"@)
            &&& entries["security.protocol"@] == protocol_name(opts)
            &&& entries.contains_key("client.id"@)
            &&& entries["client.id"@] == "kafq"@
            &&& entries["security.protocol"@] == (match (opts.mechanism is Some, opts.ssl) {
                (true, true) => "SASL_SSL"@,
                (true, false) => "SASL_PLAINTEXT"@,
                (false, true) => "SSL"@,
                (false, false) => "PLAINTEXT"@,
            })
            &&& entries.contains_key("enable.ssl.certificate.verification"@) <==> opts.ssl
                && opts.insecure
            &&& opts.ssl && opts.insecure ==> entries["enable.ssl.certificate.verification"@]
                == "false"@
        }),
{
    lemma_setting_names_differ();
}

/// The settings hold nothing of a good static token: other options with another good token ask for
/// the same settings.
pub proof fn law_settings_do_not_tell_the_token(
    opts: GlobalOptions,
    other: GlobalOptions,
    now: Result<int, Seq<char>>,
)
    requires
        other == (GlobalOptions {
            oauth_bearer: other.oauth_bearer,
            oauth_principal: other.oauth_principal,
            oauth_expiry_ms: other.oauth_expiry_ms,
            ..opts
        }),
        static_token(opts, now) matches Ok(Some(_)),
        static_token(other, now) matches Ok(Some(_)),
    ensures
        client_entries(opts, now) == client_entries(other, now),
{
}

/// No settings hold a token configuration for the client library: a static token is installed on
/// the client.
pub proof fn law_token_is_not_a_setting(opts: GlobalOptions, now: Result<int, Seq<char>>)
    requires
        client_entries(opts, now) is Ok,
    ensures
        !client_entries(opts, now)->Ok_0.contains_key("sasl.oauthbearer.config"@),
{
    lemma_setting_names_differ();
}

proof fn lemma_setting_names_differ()
    ensures
        "bootstrap.servers"@.len() == 17,
        "client.id"@.len() == 9,
        "sasl.mechanism"@.len() == 14,
        "sasl.username"@.len() == 13,
        "sasl.password"@.len() == 13,
        "sasl.oauthbearer.method"@.len() == 23,
        "sasl.oauthbearer.token.endpoint.url"@.len() == 35,
        "sasl.oauthbearer.client.id"@.len() == 26,
        "sasl.oauthbearer.client.secret"@.len() == 30,
        "sasl.oauthbearer.scope"@.len() == 22,
        "sasl.oauthbearer.extensions"@.len() == 27,
        "security.protocol"@.len() == 17,
        "enable.ssl.certificate.verification"@.len() == 35,
        "sasl.oauthbearer.config"@.len() == 23,
        "bootstrap.servers"@ != "security.protocol"@,
        "sasl.oauthbearer.token.endpoint.url"@ != "enable.ssl.certificate.verification"@,
        "sasl.oauthbearer.method"@ != "sasl.oauthbearer.config"@,
{
    reveal_strlit("bootstrap.servers");
    reveal_strlit("client.id");
    reveal_strlit("sasl.mechanism");
    reveal_strlit("sasl.username");
    reveal_strlit("sasl.password");
    reveal_strlit("sasl.oauthbearer.method");
    reveal_strlit("sasl.oauthbearer.token.endpoint.url");
    reveal_strlit("sasl.oauthbearer.client.id");
    reveal_strlit("sasl.oauthbearer.client.secret");
    reveal_strlit("sasl.oauthbearer.scope");
    reveal_strlit("sasl.oauthbearer.extensions");
    reveal_strlit("security.protocol");
    reveal_strlit("enable.ssl.certificate.verification");
    reveal_strlit("sasl.oauthbearer.config");
    assert("bootstrap.servers"@[0] != "security.protocol"@[0]);
    assert("sasl.oauthbearer.token.endpoint.url"@[0] != "enable.ssl.certificate.verification"@[0]);
    assert("sasl.oauthbearer.method"@[17] != "sasl.oauthbearer.config"@[17]);
}

/// A request may take as long as the timeout says; without one, 30 seconds.
pub proof fn law_requests_end(timeout_ms: u64)
    ensures
        timeout_ms > 0 ==> request_millis(timeout_ms) == timeout_ms,
        timeout_ms == 0 ==> request_millis(timeout_ms) == 30 * 1000,
{
}

/// A mechanism is known by its name in any case; no other text is one.
pub proof fn law_mechanisms_by_name(raw: Seq<char>)
    ensures
        lowercase(raw) == "plain"@ ==> mechanism_name(raw) == Some("PLAIN"@),
        lowercase(raw) == "scram-sha-256"@ ==> mechanism_name(raw) == Some("SCRAM-SHA-256"@),
        lowercase(raw) == "scram-sha-512"@ ==> mechanism_name(raw) == Some("SCRAM-SHA-512"@),
        lowercase(raw) == "oauthbearer"@ ==> mechanism_name(raw) == Some("OAUTHBEARER"@),
        lowercase(raw) != "plain"@ && lowercase(raw) != "scram-sha-256"@ && lowercase(raw)
            != "scram-sha-512"@ && lowercase(raw) != "oauthbearer"@ ==> mechanism_name(raw) is None,
{
    reveal_strlit("plain");
    reveal_strlit("scram-sha-256");
    reveal_strlit("scram-sha-512");
    reveal_strlit("oauthbearer");
    assert("plain"@.len() == 5 && "scram-sha-256"@.len() == 13 && "scram-sha-512"@.len() == 13
        && "oauthbearer"@.len() == 11);
    assert("scram-sha-256"@[10] != "scram-sha-512"@[10]);
}

/// A clock reading is a timestamp just where it has milliseconds and they fit, and is then those
/// milliseconds.
pub proof fn law_readings_are_not_changed(reading: Result<u128, String>)
    ensures
        clock_millis(reading) is Ok <==> (reading matches Ok(millis) && millis
            <= 0x7fff_ffff_ffff_ffffu128),
        clock_millis(reading) matches Ok(time) ==> (reading matches Ok(millis) && time == millis),
{
}

/// A static token is used just where token, principal and expiry are all given, neither text is
/// empty, and the expiry is later than the time; then it is the token given. Without any of the
/// three there is none, and anything else is refused.
pub proof fn law_static_tokens_are_as_given(opts: GlobalOptions, now: Result<int, Seq<char>>)
    ensures
        static_token(opts, now) == Ok::<Option<Token>, Seq<char>>(None) <==> opts.oauth_bearer
            is None && opts.oauth_principal is None && opts.oauth_expiry_ms is None,
        static_token(opts, now) matches Ok(Some(token)) ==> {
            &&& opts.oauth_bearer matches Some(text) && token.token == text@
            &&& opts.oauth_principal matches Some(text) && token.principal == text@
            &&& opts.oauth_expiry_ms matches Some(expiry) && token.expiry_ms == expiry
        },
        static_token(opts, now) matches Ok(Some(_)) <==> (opts.oauth_bearer matches Some(token)
            && token@.len() > 0) && (opts.oauth_principal matches Some(principal)
            && principal@.len() > 0) && (opts.oauth_expiry_ms matches Some(expiry)
            && now matches Ok(time) && time < expiry),
{
}

/// A token that is installed is the one given, and one with a NUL in it is refused.
pub proof fn law_installed_tokens_hold_no_nul(token: Result<Option<Token>, Seq<char>>)
    ensures
        token matches Ok(None) ==> installable(token) == token,
        token is Err ==> installable(token) == token,
        token matches Ok(Some(t)) ==> if t.token.contains('\0') || t.principal.contains('\0') {
            installable(token) is Err
        } else {
            installable(token) == token
        },
{
}

/// An option that is given is the value of its setting; one that is not changes nothing, and none
/// changes another setting.
pub proof fn law_options_set_their_setting(
    entries: Map<Seq<char>, Seq<char>>,
    name: Seq<char>,
    option: Option<String>,
    other: Seq<char>,
)
    ensures
        option matches Some(text) ==> with_option(entries, name, option).contains_key(name)
            && with_option(entries, name, option)[name] == text@,
        option is None ==> with_option(entries, name, option) == entries,
        other != name ==> with_option(entries, name, option).contains_key(other)
            == entries.contains_key(other) && with_option(entries, name, option)[other]
            == entries[other],
{
}

/// A producer keeps the settings that it is given, retries in order, and delivers within the
/// timeout.
pub proof fn law_producer_settings(
    entries: Map<Seq<char>, Seq<char>>,
    timeout_ms: u64,
    name: Seq<char>,
)
    ensures
        ({
            let set = producer_entries(entries, timeout_ms);
            &&& set.contains_key("enable.idempotence"@) && set["enable.idempotence"@] == "true"@
            &&& set.contains_key("delivery.timeout.ms"@) && set["delivery.timeout.ms"@] == decimal(
                timeout_ms as int,
            )
            &&& name != "enable.idempotence"@ && name != "delivery.timeout.ms"@ ==> {
                &&& set.contains_key(name) == entries.contains_key(name)
                &&& set[name] == entries[name]
            }
        }),
{
    reveal_strlit("enable.idempotence");
    reveal_strlit("delivery.timeout.ms");
    assert("enable.idempotence"@.len() == 18 && "delivery.timeout.ms"@.len() == 19);
}

/// Whether any OAuth option is given.
pub open spec fn gives_oauth(opts: GlobalOptions) -> bool {
    opts.oauth_bearer is Some || opts.oauth_principal is Some || opts.oauth_expiry_ms is Some
        || opts.oidc_token_url is Some || opts.oidc_client_id is Some || opts.oidc_client_secret
        is Some || opts.oidc_scope is Some || opts.oidc_extensions is Some
}

/// Without a mechanism and without OAuth options the settings are the brokers, the client's name
/// and the transport, and nothing of authentication.
pub proof fn law_plain_settings(opts: GlobalOptions, now: Result<int, Seq<char>>, name: Seq<char>)
    requires
        opts.mechanism is None,
        !gives_oauth(opts),
    ensures
        client_entries(opts, now) matches Ok(set) && {
            &&& set.contains_key(name) ==> name == "bootstrap.servers"@ || name == "client.id"@
                || name == "security.protocol"@ || name == "enable.ssl.certificate.verification"@
            &&& set["bootstrap.servers"@] == opts.brokers@
            &&& set["client.id"@] == "kafq"@
            &&& set["security.protocol"@] == if opts.ssl {
                "SSL"@
            } else {
                "PLAINTEXT"@
            }
            &&& opts.ssl && opts.insecure ==> set["enable.ssl.certificate.verification"@]
                == "false"@
        },
{
    lemma_setting_names_differ();
}

/// With a mechanism of user name and password, in any case, the settings name the mechanism and
/// hold the user name and the password just where they are given, as they are given.
pub proof fn law_password_settings(opts: GlobalOptions, now: Result<int, Seq<char>>, raw: String)
    requires
        opts.mechanism == Some(raw),
        lowercase(raw@) == "plain"@ || lowercase(raw@) == "scram-sha-256"@ || lowercase(raw@)
            == "scram-sha-512"@,
        !gives_oauth(opts),
    ensures
        client_entries(opts, now) matches Ok(set) && {
            &&& set.contains_key("sasl.mechanism"@)
            &&& lowercase(raw@) == "plain"@ ==> set["sasl.mechanism"@] == "PLAIN"@
            &&& lowercase(raw@) == "scram-sha-256"@ ==> set["sasl.mechanism"@] == "SCRAM-SHA-256"@
            &&& lowercase(raw@) == "scram-sha-512"@ ==> set["sasl.mechanism"@] == "SCRAM-SHA-512"@
            &&& set.contains_key("sasl.username"@) <==> opts.username is Some
            &&& opts.username matches Some(user) ==> set["sasl.username"@] == user@
            &&& set.contains_key("sasl.password"@) <==> opts.password is Some
            &&& opts.password matches Some(password) ==> set["sasl.password"@] == password@
            &&& set["security.protocol"@] == if opts.ssl {
                "SASL_SSL"@
            } else {
                "SASL_PLAINTEXT"@
            }
            &&& !set.contains_key("sasl.oauthbearer.method"@)
        },
{
    lemma_setting_names_differ();
    law_mechanisms_by_name(raw@);
    reveal_strlit("PLAIN");
    reveal_strlit("SCRAM-SHA-256");
    reveal_strlit("SCRAM-SHA-512");
    reveal_strlit("OAUTHBEARER");
    reveal_strlit("sasl.username");
    reveal_strlit("sasl.password");
    assert("PLAIN"@.len() != "OAUTHBEARER"@.len());
    assert("SCRAM-SHA-256"@.len() != "OAUTHBEARER"@.len());
    assert("SCRAM-SHA-512"@.len() != "OAUTHBEARER"@.len());
    assert("sasl.username"@[5] != "sasl.password"@[5]);
}

/// With the mechanism `oauthbearer` and OIDC options alone, address, client and secret are all
/// needed, and stand in the settings as they are given; scope and extensions do so just where they
/// are given.
pub proof fn law_oidc_settings(opts: GlobalOptions, now: Result<int, Seq<char>>, raw: String)
    requires
        opts.mechanism == Some(raw),
        lowercase(raw@) == "oauthbearer"@,
        opts.oauth_bearer is None && opts.oauth_principal is None && opts.oauth_expiry_ms is None,
        gives_oauth(opts),
    ensures
        client_entries(opts, now) is Ok <==> opts.oidc_token_url is Some && opts.oidc_client_id
            is Some && opts.oidc_client_secret is Some,
        client_entries(opts, now) matches Ok(set) ==> {
            &&& set["sasl.mechanism"@] == "OAUTHBEARER"@
            &&& set["sasl.oauthbearer.method"@] == "oidc"@
            &&& set["sasl.oauthbearer.token.endpoint.url"@] == opts.oidc_token_url->Some_0@
            &&& set["sasl.oauthbearer.client.id"@] == opts.oidc_client_id->Some_0@
            &&& set["sasl.oauthbearer.client.secret"@] == opts.oidc_client_secret->Some_0@
            &&& set.contains_key("sasl.oauthbearer.scope"@) <==> opts.oidc_scope is Some
            &&& opts.oidc_scope matches Some(scope) ==> set["sasl.oauthbearer.scope"@] == scope@
            &&& set.contains_key("sasl.oauthbearer.extensions"@) <==> opts.oidc_extensions is Some
            &&& opts.oidc_extensions matches Some(pairs) ==> set["sasl.oauthbearer.extensions"@]
                == pairs@
            &&& !set.contains_key("sasl.username"@)
            &&& !set.contains_key("sasl.password"@)
        },
{
    lemma_setting_names_differ();
    law_mechanisms_by_name(raw@);
}

/// With the mechanism `oauthbearer` and without OIDC options a good static token is needed, and
/// the settings name the mechanism alone.
pub proof fn law_static_token_settings(
    opts: GlobalOptions,
    now: Result<int, Seq<char>>,
    raw: String,
)
    requires
        opts.mechanism == Some(raw),
        lowercase(raw@) == "oauthbearer"@,
        opts.oidc_token_url is None && opts.oidc_client_id is None && opts.oidc_client_secret
            is None && opts.oidc_scope is None && opts.oidc_extensions is None,
    ensures
        client_entries(opts, now) is Ok <==> static_token(opts, now) matches Ok(Some(_)),
        client_entries(opts, now) matches Ok(set) ==> {
            &&& set["sasl.mechanism"@] == "OAUTHBEARER"@
            &&& !set.contains_key("sasl.oauthbearer.method"@)
            &&& !set.contains_key("sasl.username"@)
            &&& !set.contains_key("sasl.password"@)
        },
{
    lemma_setting_names_differ();
    law_mechanisms_by_name(raw@);
}

/// A mechanism of another name is refused.
pub proof fn law_other_mechanisms_are_refused(
    opts: GlobalOptions,
    now: Result<int, Seq<char>>,
    raw: String,
)
    requires
        opts.mechanism == Some(raw),
        lowercase(raw@) != "plain"@,
        lowercase(raw@) != "scram-sha-256"@,
        lowercase(raw@) != "scram-sha-512"@,
        lowercase(raw@) != "oauthbearer"@,
    ensures
        client_entries(opts, now) is Err,
{
}

/// The settings hold nothing but the brokers, the client's name, the transport and what the
/// mechanism needs.
pub proof fn law_no_other_settings(opts: GlobalOptions, now: Result<int, Seq<char>>, name: Seq<char>)
    requires
        client_entries(opts, now) matches Ok(set) && set.contains_key(name),
    ensures
        name == "bootstrap.servers"@ || name == "client.id"@ || name == "security.protocol"@ || name
            == "enable.ssl.certificate.verification"@ || name == "sasl.mechanism"@ || name
            == "sasl.username"@ || name == "sasl.password"@ || name == "sasl.oauthbearer.method"@
            || name == "sasl.oauthbearer.token.endpoint.url"@ || name
            == "sasl.oauthbearer.client.id"@ || name == "sasl.oauthbearer.client.secret"@ || name
            == "sasl.oauthbearer.scope"@ || name == "sasl.oauthbearer.extensions"@,
{
}

/// What is told of a static token is what it holds.
pub proof fn law_token_contents_are_told(token: StaticOAuth<'_>)
    ensures
        token@.token == token.token@,
        token@.principal == token.principal@,
        token@.expiry_ms == token.expiry_ms,
{
}

} // verus!
