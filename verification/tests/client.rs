use transport_postgresql::backend::Backend;
use transport_postgresql::client::{sql_error, Execution, Login, Progress};
use transport_postgresql::frontend::Frontend;
use transport_postgresql::{quote_identifier, quote_literal, Client, QueryResult, TransportError};

#[test]
fn quoting_doubles_the_delimiter_and_nothing_else() {
    assert_eq!(quote_literal("it's"), "'it''s'");
    assert_eq!(quote_literal("back\\slash"), "'back\\slash'");
    assert_eq!(quote_literal(""), "''");
    assert_eq!(quote_identifier("in\"box"), "\"in\"\"box\"");
    assert_eq!(quote_identifier("Inbox"), "\"Inbox\"");
}

#[test]
fn an_error_is_judged_by_its_class() {
    assert!(sql_error("08006", "connection failure").retryable);
    assert!(sql_error("40P01", "deadlock detected").retryable);
    assert!(sql_error("57P03", "the database system is starting up").retryable);
    assert!(!sql_error("28P01", "password authentication failed").retryable);
    assert!(!sql_error("42P01", "relation does not exist").retryable);
    assert!(!sql_error("", "nothing").retryable);
}

#[test]
fn an_error_says_what_the_server_said() {
    assert_eq!(
        sql_error("53300", "too many connections"),
        TransportError {
            message: "the server answered 53300: too many connections".into(),
            retryable: true,
        }
    );
    assert!(!sql_error("0", "short").retryable);
    assert!(!sql_error("\u{e9}8", "not a class").retryable);
}

fn refused(login: Login) -> TransportError {
    match login {
        Login::Refused(error) => error,
        _ => panic!("not refused"),
    }
}

#[test]
fn a_login_goes_by_what_the_server_asks() {
    let (mut client, opening) = Client::connect("ann", "orders", Some("secret"));
    assert_eq!(
        opening,
        Frontend::Startup {
            user: "ann".into(),
            database: "orders".into(),
        }
    );
    assert!(matches!(client.login(Some(Backend::Authentication(3))),
        Login::Send(Frontend::Password(password)) if password == "secret"));
    assert!(matches!(client.login(Some(Backend::Authentication(0))), Login::Wait));
    for (name, value) in [("server_version", "16.0"), ("a", "1"), ("a", "2")] {
        let status = Backend::ParameterStatus {
            name: name.into(),
            value: value.into(),
        };
        assert!(matches!(client.login(Some(status)), Login::Wait));
    }
    assert!(matches!(client.login(Some(Backend::Other(b'N'))), Login::Wait));
    assert!(matches!(client.login(Some(Backend::ReadyForQuery(b'I'))), Login::Ready));
    assert_eq!(client.parameter("server_version"), Some("16.0"));
    assert_eq!(client.parameter("a"), Some("1"), "the first of them");
    assert_eq!(client.parameter("b"), None);
    assert_eq!(client.close(), Frontend::Terminate);
}

#[test]
fn a_login_is_refused_with_a_reason() {
    let (mut client, _) = Client::connect("ann", "orders", None);
    let error = refused(client.login(Some(Backend::Authentication(3))));
    assert_eq!(error.message, "the server asks for a password and none is configured");
    for (method, name) in [(5, "MD5"), (10, "SCRAM"), (7, "method 7"), (-1, "method -1")] {
        let error = refused(client.login(Some(Backend::Authentication(method))));
        assert!(!error.retryable);
        assert_eq!(
            error.message,
            format!(
                "the server asks for {name}, and this crate speaks trust and cleartext only"
            )
        );
    }
    let starting = Backend::ErrorResponse {
        severity: "FATAL".into(),
        code: "57P03".into(),
        message: "starting up".into(),
    };
    assert!(refused(client.login(Some(starting))).retryable);
    let closed = refused(client.login(None));
    assert_eq!(closed.message, "the server closed during the login");
}

fn run(sql: &str, answers: Vec<Option<Backend>>) -> Result<QueryResult, TransportError> {
    let (client, _) = Client::connect("ann", "orders", None);
    let (message, mut querying) = client.query(sql);
    assert_eq!(message, Frontend::Query(sql.into()));
    for answer in answers {
        match querying.step(answer) {
            Progress::Wait(next) => querying = next,
            Progress::Done(result) => return Ok(result),
            Progress::Failed(error) => return Err(error),
        }
    }
    panic!("still waiting")
}

#[test]
fn a_query_keeps_its_rows_and_its_tag() {
    let row = vec![Some("1".to_string()), None];
    let result = run(
        "SELECT 1",
        vec![
            Some(Backend::RowDescription(vec!["a".into(), "b".into()])),
            Some(Backend::DataRow(row.clone())),
            Some(Backend::Other(b'N')),
            Some(Backend::DataRow(Vec::new())),
            Some(Backend::CommandComplete("SELECT 2".into())),
            Some(Backend::ReadyForQuery(b'I')),
        ],
    );
    assert_eq!(
        result,
        Ok(QueryResult {
            columns: vec!["a".into(), "b".into()],
            rows: vec![row, Vec::new()],
            tag: "SELECT 2".into(),
        })
    );
    assert_eq!(
        run("", vec![Some(Backend::EmptyQueryResponse), Some(Backend::ReadyForQuery(b'I'))]),
        Ok(QueryResult::default())
    );
}

#[test]
fn a_query_fails_once_the_server_is_ready_again() {
    let failed = run(
        "SELECT",
        vec![
            Some(Backend::ErrorResponse {
                severity: "ERROR".into(),
                code: "42601".into(),
                message: "syntax".into(),
            }),
            Some(Backend::CommandComplete("SELECT 0".into())),
            Some(Backend::ReadyForQuery(b'E')),
        ],
    )
    .expect_err("an error");
    assert_eq!(failed.message, "the server answered 42601: syntax");
    let closed = run("SELECT", vec![None]).expect_err("closed");
    assert_eq!(closed.message, "the server closed mid-query");
    assert!(!closed.retryable);
}

#[test]
fn a_statement_run_for_its_effect_comes_to_its_tag() {
    let (client, _) = Client::connect("ann", "orders", None);
    let (message, executing) = client.execute("DELETE FROM t");
    assert_eq!(message, Frontend::Query("DELETE FROM t".into()));
    let executing = match executing.step(Some(Backend::CommandComplete("DELETE 3".into()))) {
        Execution::Wait(executing) => executing,
        _ => panic!("not ready yet"),
    };
    assert!(matches!(
        executing.step(Some(Backend::ReadyForQuery(b'I'))),
        Execution::Done(tag) if tag == "DELETE 3"
    ));
    let (_, executing) = client.execute("DELETE FROM t");
    assert!(matches!(executing.step(None), Execution::Failed(error)
        if error.message == "the server closed mid-query"));
}
