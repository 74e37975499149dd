use load_harness::config::{
    BodySource, Client, ConfigError, FailurePolicy, RunConfig, Server,
};

fn s(text: &str) -> String {
    text.to_string()
}

fn server(addr: Option<&str>, path: Option<&str>, raw: Option<&str>) -> Server {
    Server { addr: addr.map(s), path: path.map(s), raw: raw.map(s) }
}

fn client(num: usize, path: Option<&str>, raw: Option<&str>, limit: usize) -> Client {
    Client {
        num,
        addr: s("http://localhost:8080"),
        path: path.map(s),
        raw: raw.map(s),
        max_outbound_requests: limit,
        stats: true,
    }
}

#[test]
fn server_serves_the_raw_text() {
    assert_eq!(server(None, None, Some("hello")).get_body(None), Ok(s("hello")));
    assert_eq!(server(None, None, Some("hello")).body_source(), BodySource::FromRaw(s("hello")));
}

#[test]
fn server_serves_the_empty_string_by_default() {
    assert_eq!(server(None, None, None).get_body(None), Ok(s("")));
    assert_eq!(server(None, None, None).body_source(), BodySource::Unset);
    assert_eq!(server(None, None, None).get_body(Some(s("ignored"))), Ok(s("")));
}

#[test]
fn server_prefers_the_file_to_the_raw_text() {
    let both = server(None, Some("body.txt"), Some("raw"));
    assert_eq!(both.body_source(), BodySource::FromFile(s("body.txt")));
    assert!(both.body_source().needs_file());
    assert_eq!(both.get_body(Some(s("from the file"))), Ok(s("from the file")));
}

#[test]
fn server_fails_on_an_unreadable_file() {
    assert_eq!(server(None, Some("missing.txt"), None).get_body(None), Err(ConfigError::UnreadableBody));
    assert_eq!(server(None, Some("missing.txt"), Some("raw")).get_body(None), Err(ConfigError::UnreadableBody));
}

#[test]
fn server_listens_on_the_default_address() {
    assert_eq!(server(None, None, None).address(), "localhost:8080");
    assert_eq!(server(Some("0.0.0.0:9000"), None, None).address(), "0.0.0.0:9000");
}

#[test]
fn client_expects_nothing_by_default() {
    assert_eq!(client(1, None, None, 1).get_body(None), Ok(None));
    assert_eq!(client(1, None, None, 1).body_source(), BodySource::Unset);
    assert!(!client(1, None, None, 1).body_source().needs_file());
}

#[test]
fn client_expects_the_raw_text() {
    assert_eq!(client(1, None, Some("hello"), 1).get_body(None), Ok(Some(s("hello"))));
    assert_eq!(client(1, None, Some(""), 1).get_body(None), Ok(Some(s(""))));
    assert!(!client(1, None, Some("hello"), 1).body_source().needs_file());
}

#[test]
fn client_expects_the_text_of_the_file() {
    let c = client(1, Some("body.txt"), Some("raw"), 1);
    assert_eq!(c.body_source(), BodySource::FromFile(s("body.txt")));
    assert_eq!(c.get_body(Some(s("from the file"))), Ok(Some(s("from the file"))));
    assert_eq!(c.get_body(None), Err(ConfigError::UnreadableBody));
}

#[test]
fn sources_resolve_once_read() {
    assert_eq!(BodySource::FromRaw(s("a")).resolve(None), Ok(Some(s("a"))));
    assert_eq!(BodySource::FromRaw(s("a")).resolve(Some(s("b"))), Ok(Some(s("a"))));
    assert_eq!(BodySource::FromFile(s("p")).resolve(Some(s("b"))), Ok(Some(s("b"))));
    assert_eq!(BodySource::FromFile(s("p")).resolve(None), Err(ConfigError::UnreadableBody));
    assert_eq!(BodySource::Unset.resolve(Some(s("b"))), Ok(None));
}

#[test]
fn client_config_carries_the_arguments() {
    let config = client(5, None, Some("hello"), 2).config(Some(s("hello"))).unwrap();
    assert_eq!(
        config,
        RunConfig {
            target: s("http://localhost:8080"),
            requests: 5,
            limit: 2,
            expected: Some(s("hello")),
            report_stats: true,
            policy: FailurePolicy::FailFast,
        }
    );
    assert_eq!(config.check(), Ok(()));
}

#[test]
fn a_run_of_no_requests_is_rejected() {
    assert_eq!(client(0, None, Some("hello"), 2).config(None), Err(ConfigError::NoRequests));
    assert_eq!(client(0, None, None, 0).config(None), Err(ConfigError::NoRequests));
}

#[test]
fn a_run_with_nothing_in_flight_is_rejected() {
    assert_eq!(client(5, None, None, 0).config(None), Err(ConfigError::NoConcurrency));
}

#[test]
fn more_concurrency_than_requests_is_accepted() {
    let config = client(2, None, None, 10).config(None).unwrap();
    assert_eq!(config.requests, 2);
    assert_eq!(config.limit, 10);
    assert_eq!(config.check(), Ok(()));
}
