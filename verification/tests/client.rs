use std::time::Duration;

use kafq::client::{
    build_client_config, client_config_at, install_failure, install_token_at, normalize_mechanism,
    now_millis, oidc_requested, producer_config, static_oauth_at, timestamp_of, GlobalOptions,
};
use kafq::error::Error;

fn options() -> GlobalOptions {
    GlobalOptions {
        brokers: "localhost:9092".to_string(),
        timeout_ms: 0,
        ssl: false,
        insecure: false,
        mechanism: None,
        username: None,
        password: None,
        oauth_bearer: None,
        oauth_principal: None,
        oauth_expiry_ms: None,
        oidc_token_url: None,
        oidc_client_id: None,
        oidc_client_secret: None,
        oidc_scope: None,
        oidc_extensions: None,
    }
}

fn with_token(expiry_ms: i64) -> GlobalOptions {
    let mut opts = options();
    opts.mechanism = Some("oauthbearer".to_string());
    opts.oauth_bearer = Some("token".to_string());
    opts.oauth_principal = Some("principal".to_string());
    opts.oauth_expiry_ms = Some(expiry_ms);
    opts
}

fn with_oidc() -> GlobalOptions {
    let mut opts = options();
    opts.mechanism = Some("OAuthBearer".to_string());
    opts.oidc_token_url = Some("https://issuer/token".to_string());
    opts.oidc_client_id = Some("id".to_string());
    opts.oidc_client_secret = Some("hidden".to_string());
    opts
}

fn refusal(opts: &GlobalOptions) -> String {
    client_config_at(opts, Ok(1_000)).unwrap_err().message
}

#[test]
fn static_oauth_requires_complete_metadata() {
    let mut opts = options();
    opts.mechanism = Some("oauthbearer".to_string());
    opts.oauth_bearer = Some("token".to_string());

    let error = build_client_config(&opts).unwrap_err();

    assert!(error.message.contains("must be provided together"));
}

#[test]
fn static_oauth_rejects_expired_tokens() {
    let mut opts = options();
    opts.mechanism = Some("oauthbearer".to_string());
    opts.oauth_bearer = Some("token".to_string());
    opts.oauth_principal = Some("principal".to_string());
    opts.oauth_expiry_ms = Some(1);

    let error = build_client_config(&opts).unwrap_err();

    assert!(error.message.contains("must be a future Unix timestamp"));
}

#[test]
fn static_oauth_uses_the_application_token_api() {
    let mut opts = options();
    opts.mechanism = Some("oauthbearer".to_string());
    opts.oauth_bearer = Some("token".to_string());
    opts.oauth_principal = Some("principal".to_string());
    opts.oauth_expiry_ms = Some(now_millis().unwrap() + 60_000);

    let config = build_client_config(&opts).unwrap();

    assert_eq!(config.get("sasl.mechanism"), Some("OAUTHBEARER"));
    assert_eq!(config.get("sasl.oauthbearer.config"), None);
}

#[test]
fn producer_timeout_bounds_delivery() {
    let mut opts = options();
    opts.timeout_ms = 1_234;
    let config = producer_config(&build_client_config(&opts).unwrap(), &opts);

    assert_eq!(config.get("delivery.timeout.ms"), Some("1234"));
}

#[test]
fn zero_producer_timeout_disables_delivery_timeout() {
    let opts = options();
    let config = producer_config(&build_client_config(&opts).unwrap(), &opts);

    assert_eq!(config.get("delivery.timeout.ms"), Some("0"));
}

#[test]
fn producer_enables_idempotence() {
    let opts = options();
    let config = producer_config(&build_client_config(&opts).unwrap(), &opts);

    assert_eq!(config.get("enable.idempotence"), Some("true"));
}

#[test]
fn producer_settings_leave_the_others_alone() {
    let opts = options();
    let base = build_client_config(&opts).unwrap();
    let config = producer_config(&base, &opts);

    assert_eq!(config.get("bootstrap.servers"), Some("localhost:9092"));
    assert_eq!(config.get("client.id"), Some("kafq"));
    assert_eq!(base.get("enable.idempotence"), None);
}

#[test]
fn plaintext_is_the_default_transport() {
    let config = build_client_config(&options()).unwrap();

    assert_eq!(config.get("bootstrap.servers"), Some("localhost:9092"));
    assert_eq!(config.get("security.protocol"), Some("PLAINTEXT"));
    assert_eq!(config.get("sasl.mechanism"), None);
    assert_eq!(config.get("enable.ssl.certificate.verification"), None);
}

#[test]
fn transport_follows_the_options() {
    let mut opts = options();
    opts.ssl = true;
    let config = build_client_config(&opts).unwrap();
    assert_eq!(config.get("security.protocol"), Some("SSL"));
    assert_eq!(config.get("enable.ssl.certificate.verification"), None);

    opts.insecure = true;
    let config = build_client_config(&opts).unwrap();
    assert_eq!(config.get("enable.ssl.certificate.verification"), Some("false"));

    opts.mechanism = Some("plain".to_string());
    let config = build_client_config(&opts).unwrap();
    assert_eq!(config.get("security.protocol"), Some("SASL_SSL"));

    opts.ssl = false;
    let config = build_client_config(&opts).unwrap();
    assert_eq!(config.get("security.protocol"), Some("SASL_PLAINTEXT"));
    assert_eq!(config.get("enable.ssl.certificate.verification"), None);
}

#[test]
fn user_and_password_are_passed_when_given() {
    let mut opts = options();
    opts.mechanism = Some("Scram-SHA-256".to_string());
    opts.username = Some("u".to_string());
    let config = build_client_config(&opts).unwrap();
    assert_eq!(config.get("sasl.mechanism"), Some("SCRAM-SHA-256"));
    assert_eq!(config.get("sasl.username"), Some("u"));
    assert_eq!(config.get("sasl.password"), None);

    opts.password = Some("p".to_string());
    let config = build_client_config(&opts).unwrap();
    assert_eq!(config.get("sasl.password"), Some("p"));
}

#[test]
fn mechanisms_are_known_in_any_case() {
    assert_eq!(normalize_mechanism("PLAIN"), Ok("PLAIN"));
    assert_eq!(normalize_mechanism("scram-sha-256"), Ok("SCRAM-SHA-256"));
    assert_eq!(normalize_mechanism("Scram-Sha-512"), Ok("SCRAM-SHA-512"));
    assert_eq!(normalize_mechanism("OAUTHBEARER"), Ok("OAUTHBEARER"));
    assert_eq!(
        normalize_mechanism("GSSAPI").unwrap_err().message,
        "Unsupported SASL mechanism: gssapi"
    );
}

#[test]
fn static_tokens_and_oidc_exclude_each_other() {
    let mut opts = with_oidc();
    opts.oauth_bearer = Some("token".to_string());
    opts.oauth_principal = Some("principal".to_string());
    opts.oauth_expiry_ms = Some(2_000);

    assert_eq!(
        refusal(&opts),
        "Static OAUTHBEARER and OIDC options are mutually exclusive"
    );
}

#[test]
fn oauth_options_need_their_mechanism() {
    let mut opts = with_token(2_000);
    opts.mechanism = Some("plain".to_string());
    assert_eq!(refusal(&opts), "OAuth options require --mechanism oauthbearer");

    let mut opts = with_oidc();
    opts.mechanism = None;
    assert_eq!(refusal(&opts), "OAuth options require --mechanism oauthbearer");
}

#[test]
fn oauthbearer_needs_a_token_or_oidc() {
    let mut opts = options();
    opts.mechanism = Some("oauthbearer".to_string());
    assert_eq!(
        refusal(&opts),
        "SASL OAUTHBEARER requires either static token options or OIDC options"
    );
}

#[test]
fn oidc_settings_are_passed_on() {
    let mut opts = with_oidc();
    opts.oidc_scope = Some("scope".to_string());
    opts.oidc_extensions = Some("a=b".to_string());
    let config = client_config_at(&opts, Ok(0)).unwrap();

    assert_eq!(config.get("sasl.mechanism"), Some("OAUTHBEARER"));
    assert_eq!(config.get("sasl.oauthbearer.method"), Some("oidc"));
    assert_eq!(
        config.get("sasl.oauthbearer.token.endpoint.url"),
        Some("https://issuer/token")
    );
    assert_eq!(config.get("sasl.oauthbearer.client.id"), Some("id"));
    assert_eq!(config.get("sasl.oauthbearer.client.secret"), Some("hidden"));
    assert_eq!(config.get("sasl.oauthbearer.scope"), Some("scope"));
    assert_eq!(config.get("sasl.oauthbearer.extensions"), Some("a=b"));
}

#[test]
fn oidc_tells_which_option_is_missing() {
    let mut opts = with_oidc();
    opts.oidc_client_secret = None;
    assert_eq!(
        refusal(&opts),
        "--oidc-client-secret is required when using SASL OAUTHBEARER OIDC"
    );
    opts.oidc_client_id = None;
    assert_eq!(
        refusal(&opts),
        "--oidc-client-id is required when using SASL OAUTHBEARER OIDC"
    );
    opts.oidc_token_url = None;
    opts.oidc_scope = Some("scope".to_string());
    assert_eq!(
        refusal(&opts),
        "--oidc-token-url is required when using SASL OAUTHBEARER OIDC"
    );
}

#[test]
fn any_oidc_option_asks_for_oidc() {
    assert!(!oidc_requested(&options()));
    assert!(oidc_requested(&with_oidc()));
    let mut opts = options();
    opts.oidc_extensions = Some(String::new());
    assert!(oidc_requested(&opts));
}

#[test]
fn empty_token_parts_are_refused() {
    let mut opts = with_token(2_000);
    opts.oauth_bearer = Some(String::new());
    assert_eq!(refusal(&opts), "--oauth-bearer must not be empty");

    let mut opts = with_token(2_000);
    opts.oauth_principal = Some(String::new());
    assert_eq!(refusal(&opts), "--oauth-principal must not be empty");
}

#[test]
fn a_token_is_good_until_it_runs_out() {
    let opts = with_token(2_000);
    let token = static_oauth_at(&opts, Ok(1_999)).unwrap().unwrap();
    assert_eq!(token.token, "token");
    assert_eq!(token.principal, "principal");
    assert_eq!(token.expiry_ms, 2_000);

    let error = static_oauth_at(&opts, Ok(2_000)).unwrap_err();
    assert_eq!(
        error.message,
        "--oauth-expiry-ms must be a future Unix timestamp in milliseconds"
    );
}

#[test]
fn the_clock_counts_only_for_complete_tokens() {
    let broken = || Err(Error::text("no clock"));
    assert!(static_oauth_at(&options(), broken()).unwrap().is_none());
    assert_eq!(
        static_oauth_at(&with_token(1), broken()).unwrap_err().message,
        "no clock"
    );
    assert!(client_config_at(&with_oidc(), broken()).is_ok());
}

#[test]
fn clock_readings_become_timestamps() {
    assert_eq!(timestamp_of(Ok(1_780_000_000_000)), Ok(1_780_000_000_000));
    assert_eq!(timestamp_of(Ok(i64::MAX as u128)), Ok(i64::MAX));
    assert_eq!(
        timestamp_of(Ok(i64::MAX as u128 + 1)).unwrap_err().message,
        "Current timestamp does not fit in i64"
    );
    assert_eq!(
        timestamp_of(Err("early".to_string())).unwrap_err().message,
        "System clock is before the Unix epoch: early"
    );
    assert!(now_millis().unwrap() > 1_600_000_000_000);
}

#[test]
fn settings_do_not_tell_the_token() {
    let opts = with_token(2_000);
    let mut other = opts.clone();
    other.oauth_bearer = Some("another".to_string());
    other.oauth_principal = Some("someone".to_string());
    other.oauth_expiry_ms = Some(3_000);
    let config = client_config_at(&opts, Ok(1_000)).unwrap();
    assert_eq!(
        config.config_map(),
        client_config_at(&other, Ok(1_000)).unwrap().config_map()
    );
    assert_eq!(config.get("bootstrap.servers"), Some("localhost:9092"));
}

#[test]
fn tokens_with_a_nul_are_not_installed() {
    let mut opts = with_token(2_000);
    opts.oauth_bearer = Some("to\0ken".to_string());
    assert_eq!(
        install_token_at(&opts, Ok(0)).unwrap_err().message,
        "--oauth-bearer must not contain a NUL byte"
    );

    let mut opts = with_token(2_000);
    opts.oauth_principal = Some("\0".to_string());
    assert_eq!(
        install_token_at(&opts, Ok(0)).unwrap_err().message,
        "--oauth-principal must not contain a NUL byte"
    );

    let opts = with_token(2_000);
    assert_eq!(install_token_at(&opts, Ok(0)).unwrap().unwrap().token, "token");
    assert!(install_token_at(&options(), Ok(0)).unwrap().is_none());
}

#[test]
fn install_failures_tell_code_and_detail() {
    assert_eq!(
        install_failure("CODE", "why").message,
        "Failed to install static OAUTHBEARER token (CODE): why"
    );
}

#[test]
fn timeouts_follow_the_option() {
    let mut opts = options();
    assert_eq!(opts.operation_timeout(), Duration::from_secs(30));
    assert_eq!(opts.stream_deadline(), None);

    opts.timeout_ms = 1_500;
    assert_eq!(opts.operation_timeout(), Duration::from_millis(1_500));
    assert_eq!(opts.stream_deadline(), Some(Duration::from_millis(1_500)));
}
