use transport_postgresql::backend::Backend;
use transport_postgresql::frontend::Frontend;
use transport_postgresql::session::{parse_insert, Accepting, Taking, Turn};
use transport_postgresql::sql::verb;
use transport_postgresql::text::is_white_space;
use transport_postgresql::{Answer, Arrived, Event, Session};

#[test]
fn an_insert_of_one_column_is_taken_apart() {
    assert_eq!(
        parse_insert("INSERT INTO inbox (payload) VALUES ('it''s here');"),
        Some(("inbox".into(), "payload".into(), "it's here".into()))
    );
    assert_eq!(
        parse_insert("insert into \"In box\" ( \"Payload\" ) values ( '' )"),
        Some(("In box".into(), "Payload".into(), String::new()))
    );
    assert_eq!(
        parse_insert("INSERT INTO \"in\"\"box\" (\"a\") VALUES ('x')"),
        Some(("in\"box".into(), "a".into(), "x".into())),
        "a doubled quote is one, as quote_identifier writes it"
    );
    assert_eq!(
        parse_insert("INSERT INTO public.inbox (payload) VALUES ('a\nb')"),
        Some(("public.inbox".into(), "payload".into(), "a\nb".into()))
    );
    assert!(parse_insert("INSERT INTO inbox (a, b) VALUES ('x', 'y')").is_none());
    assert!(parse_insert("INSERT INTO inbox (a) VALUES ('open").is_none());
    assert!(parse_insert("UPDATE inbox SET a = 'x'").is_none());
}

#[test]
fn what_is_not_quite_an_insert_is_not_one() {
    assert!(parse_insert("INSERT INTO inbox (a) VALUES ('x') RETURNING a").is_none());
    assert!(parse_insert("INSERT INTO inbox (a) VALUES ('x');;").is_none());
    assert!(parse_insert("INSERT INTO inbox (a) VALUES (x)").is_none());
    assert!(parse_insert("INSERT INTO (a) VALUES ('x')").is_none());
    assert!(parse_insert("INSERTINTO inbox (a) VALUES ('x')").is_none());
    assert!(parse_insert("INSERT INTO inbox VALUES ('x')").is_none());
    assert!(parse_insert("").is_none());
    assert_eq!(
        parse_insert(" INSERT\tINTO\"t\"(c)VALUES('x') ; "),
        Some(("t".into(), "c".into(), "x".into()))
    );
    assert_eq!(
        parse_insert("INSERT INTO \u{e9}t\u{e9}_1 (\u{4e2d}) VALUES ('x')"),
        Some(("\u{e9}t\u{e9}_1".into(), "\u{4e2d}".into(), "x".into())),
        "letters beyond ASCII"
    );
    assert!(parse_insert("INSERT INTO a\u{2014}b (c) VALUES ('x')").is_none(), "a dash");
}

#[test]
fn a_verb_is_the_first_word_in_upper_case() {
    assert_eq!(verb("  select * from t"), "SELECT");
    assert_eq!(verb("SELECT*FROM t"), "SELECT");
    assert_eq!(verb("begin;"), "BEGIN");
    assert_eq!(verb("\u{3000}Commit"), "COMMIT");
    assert_eq!(verb(""), "");
}

#[test]
fn white_space_is_unicodes() {
    for code in 0..=0x10ffff {
        if let Some(c) = char::from_u32(code) {
            assert_eq!(is_white_space(c), c.is_whitespace(), "U+{code:04X}");
        }
    }
}

fn opened(password: Option<&str>) -> (Session, Accepting) {
    let mut session = Session::accept("127.0.0.1:5000", password);
    let next = session.startup(Some(Frontend::Startup {
        user: "xmip".into(),
        database: "orders".into(),
    }));
    (session, next)
}

fn welcome() -> Vec<Backend> {
    vec![
        Backend::Authentication(0),
        Backend::ParameterStatus {
            name: "server_version".into(),
            value: "16.0 (xmip)".into(),
        },
        Backend::BackendKeyData {
            process: 1,
            secret: 0,
        },
        Backend::ReadyForQuery(b'I'),
    ]
}

#[test]
fn a_client_is_trusted_or_challenged() {
    let (session, next) = opened(None);
    assert!(matches!(next, Accepting::Welcome(messages) if messages == welcome()));
    assert_eq!(session.user(), "xmip");
    assert_eq!(session.database(), "orders");

    let (session, next) = opened(Some("secret"));
    assert!(matches!(next, Accepting::Challenge(Backend::Authentication(3))));
    let next = session.authenticate(Some(Frontend::Password("secret".into())));
    assert!(matches!(next, Accepting::Welcome(messages) if messages == welcome()));
    match session.authenticate(Some(Frontend::Password("wrong".into()))) {
        Accepting::Refuse(Some(told), error) => {
            let message = "password authentication failed for user \"xmip\"";
            assert_eq!(
                told,
                Backend::ErrorResponse {
                    severity: "FATAL".into(),
                    code: "28P01".into(),
                    message: message.into(),
                }
            );
            assert_eq!(error.message, message);
            assert!(!error.retryable);
        }
        _ => panic!("the wrong password is refused"),
    }
    for message in [None, Some(Frontend::Terminate)] {
        assert!(matches!(session.authenticate(message), Accepting::Refuse(None, error)
            if error.message == "the client did not answer with a password"));
    }
}

#[test]
fn tls_is_declined_and_what_does_not_open_is_refused() {
    let mut session = Session::accept("peer", None);
    assert!(matches!(
        session.startup(Some(Frontend::SslRequest)),
        Accepting::Decline(b'N')
    ));
    for message in [None, Some(Frontend::Terminate)] {
        assert!(matches!(session.startup(message), Accepting::Refuse(None, error)
            if error.message == "the client did not open with a startup message"));
    }
    assert_eq!(session.user(), "");
}

fn reply(session: &Session, sql: &str, answered: Option<Answer>) -> (Vec<Backend>, Event) {
    match session.next_event(Some(Frontend::Query(sql.into())), answered) {
        Ok(Turn::Reply { messages, event }) => (messages, event),
        _ => panic!("a query is answered"),
    }
}

#[test]
fn a_select_is_answered_with_the_table() {
    let (session, _) = opened(None);
    let session = session.with_table(&["id", "b"], &[&[Some("1"), None], &[]]);
    let (messages, event) = reply(&session, "SELECT x", None);
    assert_eq!(event, Event::Selected("SELECT x".into()));
    assert_eq!(
        messages,
        vec![
            Backend::RowDescription(vec!["id".into(), "b".into()]),
            Backend::DataRow(vec![Some("1".into()), None]),
            Backend::DataRow(Vec::new()),
            Backend::CommandComplete("SELECT 2".into()),
            Backend::ReadyForQuery(b'I'),
        ]
    );
}

#[test]
fn an_insert_is_a_stream_and_another_is_an_error() {
    let (session, _) = opened(None);
    let (messages, event) = reply(&session, "INSERT INTO a (b) VALUES ('\\xff00')", None);
    assert_eq!(
        messages,
        vec![
            Backend::CommandComplete("INSERT 0 1".into()),
            Backend::ReadyForQuery(b'I'),
        ]
    );
    let arrived = Arrived::new("postgresql://127.0.0.1:5000/orders/a/b".into(), vec![0xff, 0]);
    assert_eq!(event, Event::Inserted(arrived.clone()));
    assert_eq!(event.inserted(), Some(arrived));

    let (messages, event) = reply(&session, "INSERT INTO a DEFAULT VALUES", None);
    assert_eq!(event, Event::Executed("INSERT INTO a DEFAULT VALUES".into()));
    assert_eq!(event.inserted(), None);
    assert_eq!(
        messages[0],
        Backend::ErrorResponse {
            severity: "ERROR".into(),
            code: "42601".into(),
            message: "only INSERT INTO t (c) VALUES ('v') is served here".into(),
        }
    );
}

#[test]
fn anything_else_is_completed_with_its_verb_unless_it_is_answered() {
    let (session, _) = opened(None);
    let (messages, event) = reply(&session, "delete from a", None);
    assert_eq!(messages[0], Backend::CommandComplete("DELETE".into()));
    assert_eq!(event, Event::Executed("delete from a".into()));
    let (messages, event) = reply(
        &session,
        "SELECT 1",
        Some(Answer::Error {
            code: "57014".into(),
            message: "canceled".into(),
        }),
    );
    assert_eq!(messages.len(), 2);
    assert!(matches!(&messages[0], Backend::ErrorResponse { code, .. } if code == "57014"));
    assert_eq!(event, Event::Selected("SELECT 1".into()), "a SELECT, whoever answers it");
    let (messages, event) = reply(&session, "begin", Some(Answer::Complete("DONE".into())));
    assert_eq!(messages[0], Backend::CommandComplete("DONE".into()));
    assert_eq!(event, Event::Executed("begin".into()));
}

#[test]
fn a_turn_without_a_query_is_closed_ignored_or_refused() {
    let (session, _) = opened(None);
    assert!(matches!(session.next_event(None, None), Ok(Turn::Closed)));
    assert!(matches!(
        session.next_event(Some(Frontend::Terminate), None),
        Ok(Turn::Closed)
    ));
    assert!(matches!(
        session.next_event(Some(Frontend::Password("x".into())), None),
        Ok(Turn::Ignore)
    ));
    let again = Frontend::Startup {
        user: "a\"b".into(),
        database: "d".into(),
    };
    for message in [Frontend::SslRequest, again] {
        let expected = format!("{message:?} after the login");
        match session.next_event(Some(message), None) {
            Err(error) => assert_eq!(error.message, expected),
            Ok(_) => panic!("refused"),
        }
    }
}

#[test]
fn whoever_waits_for_an_insert_has_the_rest_answered_on_the_way() {
    let (session, _) = opened(None);
    let asked = |sql: &str| Some(Frontend::Query(sql.into()));
    match session.next_insert(asked("begin"), None) {
        Ok(Taking::Wait(messages)) => assert_eq!(
            messages,
            vec![
                Backend::CommandComplete("BEGIN".into()),
                Backend::ReadyForQuery(b'I'),
            ]
        ),
        _ => panic!("no insert yet"),
    }
    match session.next_insert(asked("INSERT INTO t (c) VALUES ('v')"), None) {
        Ok(Taking::Taken { messages, stream }) => {
            assert_eq!(messages[0], Backend::CommandComplete("INSERT 0 1".into()));
            assert_eq!(
                stream,
                Arrived::new("postgresql://127.0.0.1:5000/orders/t/c".into(), b"v".to_vec())
            );
        }
        _ => panic!("an insert"),
    }
    assert!(matches!(
        session.next_insert(Some(Frontend::Password("x".into())), None),
        Ok(Taking::Wait(messages)) if messages.is_empty()
    ));
    assert!(matches!(session.next_insert(None, None), Ok(Taking::Closed)));
    assert!(session.next_insert(Some(Frontend::SslRequest), None).is_err());
}
