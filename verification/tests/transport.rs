use std::time::Duration;

use transport_postgresql::backend::{encode_backend, read_backend, Backend};
use transport_postgresql::client::{Login, Progress};
use transport_postgresql::frontend::{encode_frontend, read_frontend, read_startup, Frontend};
use transport_postgresql::session::{Accepting, Turn};
use transport_postgresql::transport::take_one;
use transport_postgresql::wire::{AUTH_CLEARTEXT, AUTH_SASL};
use transport_postgresql::{
    Arrived, Client, Event, PostgresTransport, QueryResult, Session, TransportError, DEFAULT_QUERY,
};

const PEER: &str = "127.0.0.1:50000";

fn secs(n: u64) -> Duration {
    Duration::from_secs(n)
}

/// A server's message after it went over the wire.
fn heard(message: &Backend) -> Backend {
    let bytes = encode_backend(message);
    read_backend(&mut bytes.as_slice()).expect("read").expect("one")
}

/// A client's message after it went over the wire.
fn said(message: &Frontend) -> Frontend {
    let bytes = encode_frontend(message);
    read_frontend(&mut bytes.as_slice()).expect("read").expect("one")
}

/// Both ends of a login: logged in, or the error at each.
fn log_in(
    near: &PostgresTransport,
    database: &str,
    far: &PostgresTransport,
) -> Result<(Client, Session), (TransportError, TransportError)> {
    let (mut client, opening) = near.connect_to(database);
    let mut session = far.accept_one(PEER);
    let bytes = encode_frontend(&opening);
    let opened = read_startup(&mut bytes.as_slice()).expect("read");
    let mut next = session.startup(opened);
    loop {
        next = match next {
            Accepting::Challenge(message) => match client.login(Some(heard(&message))) {
                Login::Send(answer) => session.authenticate(Some(said(&answer))),
                _ => panic!("a password is sent"),
            },
            Accepting::Welcome(messages) => {
                let mut ready = false;
                for message in &messages {
                    assert!(!ready, "ready is the last");
                    match client.login(Some(heard(message))) {
                        Login::Wait => {}
                        Login::Ready => ready = true,
                        _ => panic!("welcome"),
                    }
                }
                assert!(ready);
                return Ok((client, session));
            }
            Accepting::Refuse(Some(message), error) => {
                match client.login(Some(heard(&message))) {
                    Login::Refused(refused) => return Err((refused, error)),
                    _ => panic!("an error refuses"),
                }
            }
            _ => panic!("the login goes on"),
        };
    }
}

/// A query at both ends: what the client collects and what the session
/// reports.
fn run(
    client: &Client,
    session: &Session,
    sql: &str,
) -> (Result<QueryResult, TransportError>, Event) {
    let (message, mut querying) = client.query(sql);
    let (messages, event) = match session.next_event(Some(said(&message)), None) {
        Ok(Turn::Reply { messages, event }) => (messages, event),
        _ => panic!("a query is answered"),
    };
    for message in &messages {
        match querying.step(Some(heard(message))) {
            Progress::Wait(next) => querying = next,
            Progress::Done(result) => return (Ok(result), event),
            Progress::Failed(error) => return (Err(error), event),
        }
    }
    panic!("the answer ends")
}

/// A send at both ends: what the client gets and the Stream that arrives.
fn send(
    near: &PostgresTransport,
    far: &PostgresTransport,
    target: &str,
    bytes: &[u8],
) -> Result<Arrived, (TransportError, TransportError)> {
    let insertion = near.send(target, bytes).expect("a column");
    let (client, session) = log_in(near, &insertion.database, far)?;
    let (result, event) = run(&client, &session, &insertion.sql);
    assert_eq!(result.expect("inserted").tag, "INSERT 0 1");
    assert!(matches!(
        session.next_event(Some(said(&client.close())), None),
        Ok(Turn::Closed)
    ));
    Ok(take_one(event.inserted()).expect("one"))
}

/// A payload through the loopback's own session.
fn round(pair: &PostgresTransport, payload: &[u8]) -> Arrived {
    let insertion = pair.send_to(PEER, payload).expect("the target names its column");
    assert_eq!(insertion.server, PEER);
    assert_eq!(insertion.database, "probe");
    let (client, session) = log_in(pair, &insertion.database, pair).expect("trust");
    let (result, event) = run(&client, &session, &insertion.sql);
    assert_eq!(result.expect("inserted").tag, "INSERT 0 1");
    take_one(event.inserted()).expect("one")
}

#[test]
fn a_receive_runs_the_query_and_each_row_is_a_stream() {
    let far_end = PostgresTransport::new("127.0.0.1:0", "xmip", "orders").timing_out_after(secs(2));
    let near = PostgresTransport::new(PEER, "xmip", "orders")
        .querying("SELECT id, kind, payload FROM inbox ORDER BY id")
        .timing_out_after(secs(2));
    let (client, session) = log_in(&near, "orders", &far_end).expect("accepting");
    let session = session.with_table(
        &["id", "kind", "payload"],
        &[
            &[Some("41"), Some("order"), Some("ISA*00*")],
            &[Some("42"), None, None],
            &[None, Some("x"), Some("named by index")],
        ],
    );
    assert_eq!(session.user(), "xmip");
    assert_eq!(session.database(), "orders");
    let (result, event) = run(&client, &session, near.query());
    assert_eq!(
        event,
        Event::Selected("SELECT id, kind, payload FROM inbox ORDER BY id".into())
    );
    assert!(matches!(
        session.next_event(Some(said(&client.close())), None),
        Ok(Turn::Closed)
    ));
    let arrived = near.receive(result.expect("receiving"));
    assert_eq!(arrived.len(), 3);
    assert_eq!(arrived[0].bytes, b"ISA*00*");
    assert!(arrived[0].origin_uri.ends_with("/orders?row=41"));
    assert!(arrived[1].bytes.is_empty(), "NULL is an empty Stream");
    assert!(arrived[1].origin_uri.ends_with("?row=42"));
    assert!(arrived[2].origin_uri.ends_with("?row=2"));
}

#[test]
fn a_send_inserts_the_stream_as_one_column_and_the_login_is_checked() {
    let far_end = PostgresTransport::new("127.0.0.1:0", "xmip", "orders")
        .with_password("secret")
        .timing_out_after(secs(2));
    let near = PostgresTransport::new(PEER, "xmip", "orders")
        .with_password("secret")
        .timing_out_after(secs(2));
    let first = send(
        &near,
        &far_end,
        &format!("postgresql://{PEER}/orders/inbox/payload"),
        b"it's here",
    )
    .expect("first");
    assert_eq!(first.bytes, b"it's here");
    assert!(first.origin_uri.ends_with("/orders/inbox/payload"));
    let second = send(&near, &far_end, "outbox/body", b"").expect("second");
    assert!(second.bytes.is_empty());
    assert!(second.origin_uri.ends_with("/orders/outbox/body"));
    let binary = send(
        &near,
        &far_end,
        &format!("{PEER}/orders/inbox/payload"),
        &[0xff, 0xfe],
    )
    .expect("third");
    assert_eq!(
        binary.bytes,
        [0xff, 0xfe],
        "not text, so the bytea hex form"
    );
    let bad_target = near.send("postgres://host/only-one", b"x");
    let wrong = PostgresTransport::new(PEER, "xmip", "orders")
        .with_password("wrong")
        .timing_out_after(secs(2));
    let (refused, error) =
        send(&wrong, &far_end, "inbox/payload", b"x").expect_err("wrong password");
    assert!(error.message.contains("password authentication failed"));
    assert!(!bad_target.err().expect("not a column").retryable);
    assert!(!refused.retryable);
    assert!(refused.message.contains("28P01"));
    assert_eq!(far_end.name(), "postgresql");
}

#[test]
fn a_server_asking_for_scram_or_speaking_nonsense_is_refused() {
    let near = PostgresTransport::new(PEER, "xmip", "orders").timing_out_after(secs(2));
    let mut errors = Vec::new();
    for answer in [
        &encode_backend(&Backend::Authentication(AUTH_SASL))[..],
        &encode_backend(&Backend::Authentication(AUTH_CLEARTEXT))[..],
        b"HTTP/1.1 400 Bad Request\r\n\r\n",
    ] {
        let (mut client, _) = near.connect();
        let mut reader = answer;
        errors.push(match read_backend(&mut reader) {
            Ok(message) => match client.login(message) {
                Login::Refused(error) => error,
                _ => panic!("refused"),
            },
            Err(error) => error,
        });
    }
    assert!(!errors[0].retryable);
    assert!(errors[0].message.contains("SCRAM"));
    assert!(errors[1].message.contains("none is configured"), "no password configured");
    assert!(!errors[2].retryable, "not the protocol");
}

#[test]
fn the_loopback_inserts_text_and_bytes_through_its_own_session() {
    let pair = PostgresTransport::loopback(secs(2));
    let arrived = round(&pair, b"it's here");
    assert_eq!(arrived.bytes, b"it's here");
    assert!(arrived.origin_uri.starts_with("postgresql://127.0.0.1:"));
    assert!(arrived.origin_uri.ends_with("/probe/probe/payload"));
    let binary = round(&pair, &[0xff, 0xfe]);
    assert_eq!(binary.bytes, [0xff, 0xfe], "the bytea hex form");
    assert_eq!(pair.name(), "postgresql");
}

/// The payloads at the edges of what a column can hold.
fn edge_payloads() -> Vec<(&'static str, Vec<u8>)> {
    vec![
        ("empty", Vec::new()),
        ("one byte", vec![0x2a]),
        ("every byte", (0..=255).collect()),
        ("nul run", vec![0; 512]),
        ("high bytes", vec![0xff; 512]),
        ("crlf storm", b"\r\n".repeat(400)),
    ]
}

#[test]
fn the_loopback_returns_the_edge_payloads_whole() {
    let pair = PostgresTransport::loopback(secs(2));
    for (name, payload) in edge_payloads() {
        let arrived = round(&pair, &payload);
        assert_eq!(arrived.bytes, payload, "{name}");
    }
}

#[test]
fn text_in_the_hex_form_comes_back_as_the_bytes_it_names() {
    let pair = PostgresTransport::loopback(secs(2));
    assert_eq!(round(&pair, b"\\x6869").bytes, b"hi");
    assert_eq!(round(&pair, b"\\x686").bytes, b"\\x686");
}

#[test]
fn a_nul_in_a_name_cuts_the_statement() {
    let near = PostgresTransport::new(PEER, "xmip", "orders");
    let insertion = near.send("a\0b/c", b"x").expect("a column");
    let (client, session) = log_in(&near, &insertion.database, &near).expect("trust");
    let (result, event) = run(&client, &session, &insertion.sql);
    assert_eq!(
        result.expect_err("no INSERT any more").message,
        "the server answered 42601: only INSERT INTO t (c) VALUES ('v') is served here"
    );
    assert_eq!(event, Event::Executed("INSERT INTO \"a".into()));
}

#[test]
fn a_send_writes_the_statement_exactly() {
    let near = PostgresTransport::new("db:5432", "xmip", "orders");
    let insertion = near.send("in\"box/payload", b"it's").expect("text");
    assert_eq!(insertion.server, "db:5432");
    assert_eq!(insertion.database, "orders");
    assert_eq!(
        insertion.sql,
        "INSERT INTO \"in\"\"box\" (\"payload\") VALUES ('it''s')"
    );
    let insertion = near.send("t/c", b"a\0").expect("a NUL is not text");
    assert_eq!(insertion.sql, "INSERT INTO \"t\" (\"c\") VALUES ('\\x6100')");
}

fn resolved(near: &PostgresTransport, target: &str) -> [String; 4] {
    let destination = near.resolve(target).unwrap_or_else(|e| panic!("{target}: {}", e.message));
    [
        destination.server,
        destination.database,
        destination.table,
        destination.column,
    ]
}

#[test]
fn a_target_names_what_the_transport_does_not() {
    let near = PostgresTransport::new("db:5432", "xmip", "orders");
    assert_eq!(resolved(&near, "t/c"), ["db:5432", "orders", "t", "c"]);
    assert_eq!(resolved(&near, "d/t/c"), ["db:5432", "d", "t", "c"]);
    assert_eq!(resolved(&near, "h:1/d/t/c"), ["h:1", "d", "t", "c"]);
    assert_eq!(resolved(&near, "h:1/t/c"), ["h:1", "orders", "t", "c"]);
    for scheme in ["postgresql", "postgres"] {
        assert_eq!(
            resolved(&near, &format!("{scheme}://h:1/d/t/c")),
            ["h:1", "d", "t", "c"]
        );
        assert_eq!(
            resolved(&near, &format!("{scheme}://h/t/c")),
            ["h", "orders", "t", "c"]
        );
    }
    assert_eq!(resolved(&near, "/t/c"), ["db:5432", "", "t", "c"]);
    assert_eq!(resolved(&near, "t/c:d"), ["db:5432", "orders", "t", "c:d"]);
}

#[test]
fn a_target_that_names_no_column_is_refused() {
    let near = PostgresTransport::new("db:5432", "xmip", "orders");
    for target in ["", "t", "a/b/c/d", "postgres://host/only-one", "postgresql://host", "h:1/t"] {
        let error = near.resolve(target).err().expect(target);
        assert!(!error.retryable);
        assert_eq!(
            error.message,
            format!("{target:?} is not database/table/column or table/column")
        );
        assert_eq!(near.send(target, b"x").err(), Some(error));
    }
    let error = near.resolve("a\"\n").err().expect("one part");
    assert_eq!(
        error.message,
        "\"a\\\"\\n\" is not database/table/column or table/column"
    );
}

#[test]
fn a_row_is_named_by_its_first_column_and_carries_its_last() {
    let near = PostgresTransport::new("db:5432", "xmip", "orders");
    let streams = near.receive(QueryResult {
        columns: Vec::new(),
        rows: vec![
            vec![Some("only".into())],
            Vec::new(),
            vec![Some("".into()), Some("\\x00ff".into())],
            vec![None, Some("\u{e9}".into())],
        ],
        tag: String::new(),
    });
    assert_eq!(
        streams,
        vec![
            Arrived::new("postgresql://db:5432/orders?row=only".into(), b"only".to_vec()),
            Arrived::new("postgresql://db:5432/orders?row=1".into(), Vec::new()),
            Arrived::new("postgresql://db:5432/orders?row=".into(), vec![0, 0xff]),
            Arrived::new("postgresql://db:5432/orders?row=3".into(), vec![0xc3, 0xa9]),
        ]
    );
    let many = near.receive(QueryResult {
        columns: Vec::new(),
        rows: vec![Vec::new(); 101],
        tag: String::new(),
    });
    assert_eq!(many[100].origin_uri, "postgresql://db:5432/orders?row=100");
}

#[test]
fn a_transport_is_as_it_is_configured() {
    let near = PostgresTransport::new("db:5432", "xmip", "orders");
    assert_eq!(near.server(), "db:5432");
    assert_eq!(near.query(), DEFAULT_QUERY);
    assert_eq!(DEFAULT_QUERY, "SELECT id, payload FROM inbox ORDER BY id");
    assert_eq!(near.timeout(), None);
    let near = near.querying("SELECT 1").timing_out_after(secs(3));
    assert_eq!(near.query(), "SELECT 1");
    assert_eq!(near.timeout(), Some(secs(3)));
    let (_, opening) = near.connect();
    assert_eq!(
        opening,
        Frontend::Startup {
            user: "xmip".into(),
            database: "orders".into(),
        }
    );
    let pair = PostgresTransport::loopback(secs(5));
    assert_eq!(pair.server(), "127.0.0.1:0");
    assert_eq!(pair.timeout(), Some(secs(5)));
}

#[test]
fn a_far_end_has_to_take_one() {
    let stream = Arrived::new("somewhere".into(), vec![1]);
    assert_eq!(take_one(Some(stream.clone())), Ok(stream));
    let error = take_one(None).expect_err("none");
    assert_eq!(error.message, "the client closed without inserting");
    assert!(!error.retryable);
}

#[test]
fn a_client_knows_the_version_it_was_told() {
    let near = PostgresTransport::new(PEER, "xmip", "orders");
    let (client, _) = log_in(&near, "orders", &near).expect("trust");
    assert_eq!(client.parameter("server_version"), Some("16.0 (xmip)"));
    let with_password = near.with_password("secret");
    let (client, _) = log_in(&with_password, "orders", &with_password).expect("the same password");
    assert_eq!(client.parameter("server_version"), Some("16.0 (xmip)"));
}

/// What a session wrote, as it is on the wire.
fn stream(messages: &[Backend]) -> Vec<u8> {
    let mut bytes = Vec::new();
    for message in messages {
        bytes.extend_from_slice(&encode_backend(message));
    }
    bytes
}

#[test]
fn a_login_reads_just_what_is_its_own() {
    let both = PostgresTransport::new(PEER, "xmip", "orders").with_password("secret");
    let (mut client, opening) = both.connect();
    let mut session = both.accept_one(PEER);
    let mut sent = encode_frontend(&Frontend::SslRequest);
    sent.extend_from_slice(&encode_frontend(&opening));
    sent.extend_from_slice(&encode_frontend(&Frontend::Password("secret".into())));
    sent.extend_from_slice(b"what follows");
    let mut reader = sent.as_slice();
    let message = read_startup(&mut reader).expect("read");
    assert!(matches!(session.startup(message), Accepting::Decline(b'N')));
    let message = read_startup(&mut reader).expect("read");
    let mut answered = match session.startup(message) {
        Accepting::Challenge(message) => stream(&[message]),
        _ => panic!("challenged"),
    };
    let message = read_frontend(&mut reader).expect("read");
    match session.authenticate(message) {
        Accepting::Welcome(messages) => answered.extend_from_slice(&stream(&messages)),
        _ => panic!("welcome"),
    }
    assert_eq!(reader, b"what follows");
    assert_eq!((session.user(), session.database()), ("xmip", "orders"));

    answered.extend_from_slice(b"and here");
    let mut reader = answered.as_slice();
    let mut written = Vec::new();
    loop {
        match client.login(read_backend(&mut reader).expect("read")) {
            Login::Wait => {}
            Login::Send(message) => written.push(message),
            Login::Ready => break,
            Login::Refused(error) => panic!("{}", error.message),
        }
    }
    assert_eq!(written, vec![Frontend::Password("secret".into())]);
    assert_eq!(reader, b"and here");
    assert_eq!(client.parameter("server_version"), Some("16.0 (xmip)"));
}

#[test]
fn each_query_reads_just_its_own_answer() {
    let near = PostgresTransport::new(PEER, "xmip", "orders");
    let (client, session) = log_in(&near, "orders", &near).expect("trust");
    let session = session.with_table(&["a"], &[&[Some("1")], &[Some("2")]]);
    let mut answered = Vec::new();
    for sql in ["SELECT 1", "INSERT", "begin"] {
        match session.next_event(Some(said(&client.query(sql).0)), None) {
            Ok(Turn::Reply { messages, .. }) => answered.extend_from_slice(&stream(&messages)),
            _ => panic!("a query is answered"),
        }
    }
    let mut reader = answered.as_slice();
    let mut results = Vec::new();
    for sql in ["SELECT 1", "INSERT", "begin"] {
        let (_, mut querying) = client.query(sql);
        loop {
            match querying.step(read_backend(&mut reader).expect("read")) {
                Progress::Wait(next) => querying = next,
                Progress::Done(result) => {
                    results.push(Ok(result.tag));
                    break;
                }
                Progress::Failed(error) => {
                    results.push(Err(error.retryable));
                    break;
                }
            }
        }
    }
    assert!(reader.is_empty());
    assert_eq!(results, vec![Ok("SELECT 2".to_string()), Err(false), Ok("BEGIN".to_string())]);
}
