//! The client's side of one connection to a server: the login, a query
//! and its rows, a statement and its tag. Text format only, which is what
//! the simple query flow gives.

use vstd::prelude::*;

use crate::backend::{
    backend_body, backend_bytes, backend_read, backend_sendable, backend_stream,
    law_backend_reads_back, law_backend_stream_reads_back, Backend, BackendView,
};
use crate::error::{permanent, protocol_error, Fault, TransportError};
use crate::frontend::{
    frontend_bytes, frontend_sendable, frontend_stream, law_frontend_reads_back,
    law_startup_reads_back, Frontend, FrontendView,
};
use crate::session::{
    accept_read, accepting_bytes, accepting_fault, answer_messages, fresh, lemma_accept_goes_on,
    password_step, startup_step, welcome, wrong_password, AcceptedView, AcceptingView, AnswerView,
    SessionView,
};
use crate::sql::{lemma_joined_has_no_nul, quote, quoted};
use crate::text::{decimal, lemma_utf8_length, same, signed_decimal, signed_number};
use crate::wire::{
    lemma_typed_consumes, AUTH_CLEARTEXT, AUTH_MD5, AUTH_OK, AUTH_SASL, MAX_MESSAGE,
};

verus! {

/// What a query came back with.
#[derive(Clone, Debug, PartialEq, Eq)]
pub struct QueryResult {
    pub columns: Vec<String>,
    /// Each row, each column as text or NULL.
    pub rows: Vec<Vec<Option<String>>>,
    /// `SELECT 3`, `INSERT 0 1`.
    pub tag: String,
}

/// What a query came back with, the strings as their characters.
pub struct QueryResultView {
    pub columns: Seq<Seq<char>>,
    pub rows: Seq<Seq<Option<Seq<char>>>>,
    pub tag: Seq<char>,
}

impl View for QueryResult {
    type V = QueryResultView;

    open spec fn view(&self) -> QueryResultView {
        QueryResultView {
            columns: self.columns.deep_view(),
            rows: self.rows.deep_view(),
            tag: self.tag@,
        }
    }
}

/// What a query has come back with when nothing has come yet.
pub open spec fn no_result() -> QueryResultView {
    QueryResultView { columns: seq![], rows: seq![], tag: seq![] }
}

impl Default for QueryResult {
    fn default() -> (result: Self)
        ensures
            result@ == no_result(),
    {
        let result = QueryResult { columns: Vec::new(), rows: Vec::new(), tag: String::new() };
        assert(result.columns.deep_view() == Seq::<Seq<char>>::empty());
        assert(result.rows.deep_view() == Seq::<Seq<Option<Seq<char>>>>::empty());
        result
    }
}

/// What logging in comes to next.
pub enum Login {
    /// Read the next message.
    Wait,
    /// Send the message, and read the next.
    Send(Frontend),
    /// The client is logged in.
    Ready,
    /// It is not, for the error.
    Refused(TransportError),
}

/// What logging in comes to next, the strings as their characters.
pub enum LoginView {
    Wait,
    Send(FrontendView),
    Ready,
    Refused(Fault),
}

impl View for Login {
    type V = LoginView;

    open spec fn view(&self) -> LoginView {
        match *self {
            Login::Wait => LoginView::Wait,
            Login::Send(message) => LoginView::Send(message@),
            Login::Ready => LoginView::Ready,
            Login::Refused(error) => LoginView::Refused(error@),
        }
    }
}

/// A query that the server has not done with.
pub struct Querying {
    result: QueryResult,
    failed: Option<TransportError>,
}

/// A query that the server has not done with: what came back so far, and the
/// error it was answered with.
pub struct QueryingView {
    pub result: QueryResultView,
    pub failed: Option<Fault>,
}

impl View for Querying {
    type V = QueryingView;

    closed spec fn view(&self) -> QueryingView {
        QueryingView {
            result: self.result@,
            failed: match self.failed {
                Some(error) => Some(error@),
                None => None,
            },
        }
    }
}

/// What a query comes to next.
pub enum Progress {
    /// Read the next message.
    Wait(Querying),
    /// Here is what came back.
    Done(QueryResult),
    /// It failed.
    Failed(TransportError),
}

/// What a query comes to next, the strings as their characters.
pub enum ProgressView {
    Wait(QueryingView),
    Done(QueryResultView),
    Failed(Fault),
}

impl View for Progress {
    type V = ProgressView;

    open spec fn view(&self) -> ProgressView {
        match *self {
            Progress::Wait(querying) => ProgressView::Wait(querying@),
            Progress::Done(result) => ProgressView::Done(result@),
            Progress::Failed(error) => ProgressView::Failed(error@),
        }
    }
}

/// A statement run for its effect that the server has not done with.
pub struct Executing {
    querying: Querying,
}

impl View for Executing {
    type V = QueryingView;

    closed spec fn view(&self) -> QueryingView {
        self.querying@
    }
}

/// What a statement run for its effect comes to next.
pub enum Execution {
    /// Read the next message.
    Wait(Executing),
    /// Here is the tag the server completed it with.
    Done(String),
    /// It failed.
    Failed(TransportError),
}

/// What a statement run for its effect comes to next, the strings as their
/// characters.
pub enum ExecutionView {
    Wait(QueryingView),
    Done(Seq<char>),
    Failed(Fault),
}

impl View for Execution {
    type V = ExecutionView;

    open spec fn view(&self) -> ExecutionView {
        match *self {
            Execution::Wait(executing) => ExecutionView::Wait(executing@),
            Execution::Done(tag) => ExecutionView::Done(tag@),
            Execution::Failed(error) => ExecutionView::Failed(error@),
        }
    }
}

/// The client's side of one connection. Reading and writing are its owner's:
/// each message that comes in is handed to it, and it says what to send and
/// what to do next.
pub struct Client {
    password: Option<String>,
    parameters: Vec<(String, String)>,
}

/// What a client knows: the password to give, and the parameters that the
/// server reported, in the order it did.
pub struct ClientView {
    pub password: Option<Seq<char>>,
    pub parameters: Seq<(Seq<char>, Seq<char>)>,
}

impl View for Client {
    type V = ClientView;

    closed spec fn view(&self) -> ClientView {
        ClientView {
            password: self.password.deep_view(),
            parameters: self.parameters.deep_view(),
        }
    }
}

/// An SQLSTATE class whose trouble a later attempt might not meet: the
/// connection, a rollback, a resource, an operator.
pub open spec fn passing(code: Seq<char>) -> bool {
    &&& code.len() >= 2
    &&& {
        ||| code[0] == '0' && code[1] == '8'
        ||| code[0] == '4' && code[1] == '0'
        ||| code[0] == '5' && code[1] == '3'
        ||| code[0] == '5' && code[1] == '7'
    }
}

/// The fault that a server's error is.
pub open spec fn sql_fault(code: Seq<char>, message: Seq<char>) -> Fault {
    Fault {
        message: "the server answered "@ + code + ": "@ + message,
        retryable: passing(code),
    }
}

/// How a method of authentication that is not spoken here is called.
pub open spec fn method_name(method: int) -> Seq<char> {
    if method == AUTH_MD5 {
        "MD5"@
    } else if method == AUTH_SASL {
        "SCRAM"@
    } else {
        "method "@ + signed_decimal(method)
    }
}

/// What a message from the server comes to during the login, and the client
/// after it. `None` is a server that closed.
pub open spec fn login_step(client: ClientView, message: Option<BackendView>) -> (
    LoginView,
    ClientView,
) {
    match message {
        Some(BackendView::Authentication(method)) => (
            if method == AUTH_OK {
                LoginView::Wait
            } else if method == AUTH_CLEARTEXT {
                match client.password {
                    Some(password) => LoginView::Send(FrontendView::Password(password)),
                    None => LoginView::Refused(
                        permanent("the server asks for a password and none is configured"@),
                    ),
                }
            } else {
                LoginView::Refused(
                    permanent(
                        "the server asks for "@ + method_name(method as int)
                            + ", and this crate speaks trust and cleartext only"@,
                    ),
                )
            },
            client,
        ),
        Some(BackendView::ParameterStatus { name, value }) => (
            LoginView::Wait,
            ClientView { parameters: client.parameters.push((name, value)), ..client },
        ),
        Some(BackendView::ReadyForQuery(_)) => (LoginView::Ready, client),
        Some(BackendView::ErrorResponse { code, message, .. }) => (
            LoginView::Refused(sql_fault(code, message)),
            client,
        ),
        Some(_) => (LoginView::Wait, client),
        None => (
            LoginView::Refused(permanent("the server closed during the login"@)),
            client,
        ),
    }
}

/// The value of the first parameter that is called `name`.
pub open spec fn parameter_of(
    parameters: Seq<(Seq<char>, Seq<char>)>,
    name: Seq<char>,
) -> Option<Seq<char>>
    decreases parameters.len(),
{
    if parameters.len() == 0 {
        None
    } else if parameters[0].0 == name {
        Some(parameters[0].1)
    } else {
        parameter_of(parameters.skip(1), name)
    }
}

/// What a message from the server comes to during a query: the columns, a
/// row, the tag are kept; an error is too, until the server is ready for the
/// next query, which is when the query is done or has failed. `None` is a
/// server that closed.
pub open spec fn query_step(querying: QueryingView, message: Option<BackendView>) -> ProgressView {
    let result = querying.result;
    match message {
        Some(BackendView::RowDescription(columns)) => ProgressView::Wait(
            QueryingView { result: QueryResultView { columns, ..result }, ..querying },
        ),
        Some(BackendView::DataRow(values)) => ProgressView::Wait(
            QueryingView {
                result: QueryResultView { rows: result.rows.push(values), ..result },
                ..querying
            },
        ),
        Some(BackendView::CommandComplete(tag)) => ProgressView::Wait(
            QueryingView { result: QueryResultView { tag, ..result }, ..querying },
        ),
        Some(BackendView::ErrorResponse { code, message, .. }) => ProgressView::Wait(
            QueryingView { failed: Some(sql_fault(code, message)), ..querying },
        ),
        Some(BackendView::ReadyForQuery(_)) => match querying.failed {
            Some(fault) => ProgressView::Failed(fault),
            None => ProgressView::Done(result),
        },
        Some(_) => ProgressView::Wait(querying),
        None => ProgressView::Failed(permanent("the server closed mid-query"@)),
    }
}

/// What a query comes to for whoever runs it for its effect: of what came
/// back only the tag is kept.
pub open spec fn execution_of(progress: ProgressView) -> ExecutionView {
    match progress {
        ProgressView::Wait(querying) => ExecutionView::Wait(querying),
        ProgressView::Done(result) => ExecutionView::Done(result.tag),
        ProgressView::Failed(fault) => ExecutionView::Failed(fault),
    }
}

/// A query that nothing has come back of yet.
pub open spec fn just_asked() -> QueryingView {
    QueryingView { result: no_result(), failed: None }
}

impl Client {
    /// Open a connection as `user` on `database`, giving `password` where
    /// the server asks for it in the clear: the client, and the message to
    /// send. What the server answers goes to [`Client::login`].
    pub fn connect(user: &str, database: &str, password: Option<&str>) -> (opened: (
        Self,
        Frontend,
    ))
        ensures
            opened.0@ == (ClientView { password: password.deep_view(), parameters: seq![] }),
            opened.1@ == (FrontendView::Startup { user: user@, database: database@ }),
    {
        let password = match password {
            Some(password) => Some(password.to_string()),
            None => None,
        };
        let client = Client { password, parameters: Vec::new() };
        assert(client.parameters.deep_view() == Seq::<(Seq<char>, Seq<char>)>::empty());
        (client, Frontend::Startup { user: user.to_string(), database: database.to_string() })
    }

    /// What `message`, read off the connection during the login, comes to.
    /// `None` is a server that closed.
    pub fn login(&mut self, message: Option<Backend>) -> (next: Login)
        ensures
            next@ == login_step(old(self)@, message.deep_view()).0,
            final(self)@ == login_step(old(self)@, message.deep_view()).1,
    {
        match message {
            Some(Backend::Authentication(method)) => {
                if method == AUTH_OK {
                    Login::Wait
                } else if method == AUTH_CLEARTEXT {
                    match &self.password {
                        Some(password) => Login::Send(Frontend::Password(password.clone())),
                        None => Login::Refused(
                            TransportError::permanent(
                                "the server asks for a password and none is configured".to_string(),
                            ),
                        ),
                    }
                } else {
                    let name = if method == AUTH_MD5 {
                        "MD5".to_string()
                    } else if method == AUTH_SASL {
                        "SCRAM".to_string()
                    } else {
                        "method ".to_string().concat(signed_number(method).as_str())
                    };
                    Login::Refused(
                        TransportError::permanent(
                            "the server asks for ".to_string().concat(name.as_str()).concat(
                                ", and this crate speaks trust and cleartext only",
                            ),
                        ),
                    )
                }
            },
            Some(Backend::ParameterStatus { name, value }) => {
                let ghost reported = (name@, value@);
                self.parameters.push((name, value));
                assert(self.parameters.deep_view() == old(self).parameters.deep_view().push(
                    reported,
                ));
                Login::Wait
            },
            Some(Backend::ReadyForQuery(_)) => Login::Ready,
            Some(Backend::ErrorResponse { severity: _, code, message }) => Login::Refused(
                sql_error(code.as_str(), message.as_str()),
            ),
            Some(_) => Login::Wait,
            None => Login::Refused(protocol_error("the server closed during the login")),
        }
    }

    /// A parameter the server reported at login, `server_version` say.
    #[must_use]
    pub fn parameter(&self, name: &str) -> (value: Option<&str>)
        ensures
            value.deep_view() == parameter_of(self@.parameters, name@),
    {
        let ghost all = self.parameters.deep_view();
        let mut at: usize = 0;
        assert(all.skip(0) == all);
        while at < self.parameters.len()
            invariant
                all == self.parameters.deep_view(),
                at <= self.parameters@.len(),
                parameter_of(all, name@) == parameter_of(all.skip(at as int), name@),
            decreases self.parameters@.len() - at,
        {
            let (called, value) = &self.parameters[at];
            assert(all.skip(at as int)[0] == (called@, value@));
            if same(called.as_str(), name) {
                return Some(value.as_str());
            }
            assert(all.skip(at as int).skip(1) == all.skip(at + 1));
            at = at + 1;
        }
        None
    }

    /// Run `sql`: the message to send, and the query that is then under way.
    /// What the server answers goes to [`Querying::step`].
    pub fn query(&self, sql: &str) -> (asked: (Frontend, Querying))
        ensures
            asked.0@ == FrontendView::Query(sql@),
            asked.1@ == just_asked(),
    {
        (
            Frontend::Query(sql.to_string()),
            Querying { result: QueryResult::default(), failed: None },
        )
    }

    /// Run `sql` for its effect: the message to send, and the statement that
    /// is then under way. What the server answers goes to
    /// [`Executing::step`].
    pub fn execute(&self, sql: &str) -> (asked: (Frontend, Executing))
        ensures
            asked.0@ == FrontendView::Query(sql@),
            asked.1@ == just_asked(),
    {
        let (message, querying) = self.query(sql);
        (message, Executing { querying })
    }

    /// Say goodbye and hang up: the message to send.
    pub fn close(self) -> (message: Frontend)
        ensures
            message@ == FrontendView::Terminate,
    {
        Frontend::Terminate
    }
}

impl Querying {
    /// What `message`, read off the connection during the query, comes to.
    /// `None` is a server that closed.
    pub fn step(self, message: Option<Backend>) -> (next: Progress)
        ensures
            next@ == query_step(self@, message.deep_view()),
    {
        let Querying { result, failed } = self;
        match message {
            Some(Backend::RowDescription(columns)) => Progress::Wait(
                Querying { result: QueryResult { columns, ..result }, failed },
            ),
            Some(Backend::DataRow(values)) => {
                let QueryResult { columns, mut rows, tag } = result;
                let ghost before = rows.deep_view();
                let ghost row = values.deep_view();
                rows.push(values);
                assert(rows.deep_view() == before.push(row));
                Progress::Wait(Querying { result: QueryResult { columns, rows, tag }, failed })
            },
            Some(Backend::CommandComplete(tag)) => Progress::Wait(
                Querying { result: QueryResult { tag, ..result }, failed },
            ),
            Some(Backend::ErrorResponse { severity: _, code, message }) => Progress::Wait(
                Querying { result, failed: Some(sql_error(code.as_str(), message.as_str())) },
            ),
            Some(Backend::ReadyForQuery(_)) => match failed {
                Some(error) => Progress::Failed(error),
                None => Progress::Done(result),
            },
            Some(_) => Progress::Wait(Querying { result, failed }),
            None => Progress::Failed(protocol_error("the server closed mid-query")),
        }
    }
}

impl Executing {
    /// What `message`, read off the connection during the statement, comes
    /// to. `None` is a server that closed.
    pub fn step(self, message: Option<Backend>) -> (next: Execution)
        ensures
            next@ == execution_of(query_step(self@, message.deep_view())),
    {
        match self.querying.step(message) {
            Progress::Wait(querying) => Execution::Wait(Executing { querying }),
            Progress::Done(result) => Execution::Done(result.tag),
            Progress::Failed(error) => Execution::Failed(error),
        }
    }
}

/// An error the server answered, retryable where its SQLSTATE class says
/// the trouble is the connection, a rollback, a resource or an operator —
/// what a later attempt might not meet.
#[must_use]
pub fn sql_error(code: &str, message: &str) -> (error: TransportError)
    ensures
        error@ == sql_fault(code@, message@),
{
    let text = "the server answered ".to_string().concat(code).concat(": ").concat(message);
    let passes = if code.unicode_len() < 2 {
        false
    } else {
        let first: char = code.get_char(0);
        let second: char = code.get_char(1);
        (first == '0' && second == '8') || (first == '4' && second == '0') || (first == '5'
            && second == '3') || (first == '5' && second == '7')
    };
    if passes {
        TransportError::retryable(text)
    } else {
        TransportError::permanent(text)
    }
}

/// `text` as a string literal: quoted, every quote doubled. Backslashes
/// are literal, as `standard_conforming_strings` has had them since 9.1.
#[must_use]
pub fn quote_literal(text: &str) -> (literal: String)
    ensures
        literal@ == quoted(text@, '\''),
{
    quote(text, '\'')
}

/// `name` as an identifier: quoted, every quote doubled, case kept.
#[must_use]
pub fn quote_identifier(name: &str) -> (identifier: String)
    ensures
        identifier@ == quoted(name@, '"'),
{
    quote(name, '"')
}

/// A login that messages were told to: what was sent, what it comes to then,
/// and the client.
pub struct LoginRunView {
    pub sent: Seq<FrontendView>,
    pub next: LoginView,
    pub client: ClientView,
}

/// What a login comes to by `messages`, which the server sends one after
/// another, the client answering those that ask: the last word on it, or that
/// it waits for more.
pub open spec fn login_run(client: ClientView, messages: Seq<BackendView>) -> LoginRunView
    decreases messages.len(),
{
    if messages.len() == 0 {
        LoginRunView { sent: seq![], next: LoginView::Wait, client }
    } else {
        let (next, after) = login_step(client, Some(messages[0]));
        match next {
            LoginView::Wait => login_run(after, messages.skip(1)),
            LoginView::Send(message) => {
                let later = login_run(after, messages.skip(1));
                LoginRunView { sent: seq![message] + later.sent, ..later }
            },
            _ => LoginRunView { sent: seq![], next, client: after },
        }
    }
}

/// A login at the client's end once it is over: the bytes that were written
/// after the opening, what it was refused for where it was, the client, and
/// the bytes that were left unread.
pub struct LoggedView {
    pub written: Seq<u8>,
    pub refused: Option<Fault>,
    pub client: ClientView,
    pub rest: Seq<u8>,
}

/// What a login is refused for when it comes to this.
pub open spec fn login_fault(next: LoginView) -> Option<Fault> {
    match next {
        LoginView::Refused(fault) => Some(fault),
        _ => None,
    }
}

/// What a login comes to when `bytes` are all that the server sends before it
/// closes.
#[verifier::opaque]
pub open spec fn login_read(client: ClientView, bytes: Seq<u8>) -> LoggedView
    decreases bytes.len(),
{
    match backend_read(bytes) {
        (Ok(message), rest) => {
            let (next, after) = login_step(client, message);
            match next {
                LoginView::Wait => {
                    proof {
                        lemma_typed_consumes(bytes);
                    }
                    login_read(after, rest)
                },
                LoginView::Send(message) => {
                    proof {
                        lemma_typed_consumes(bytes);
                    }
                    let later = login_read(after, rest);
                    LoggedView { written: frontend_bytes(message) + later.written, ..later }
                },
                _ => LoggedView {
                    written: seq![],
                    refused: login_fault(next),
                    client: after,
                    rest,
                },
            }
        },
        (Err(fault), rest) => LoggedView {
            written: seq![],
            refused: Some(fault),
            client,
            rest,
        },
    }
}

/// A login goes on by the message that is read next.
pub proof fn lemma_login_goes_on(
    client: ClientView,
    bytes: Seq<u8>,
    message: BackendView,
    rest: Seq<u8>,
)
    requires
        backend_read(bytes) == (Ok::<Option<BackendView>, Fault>(Some(message)), rest),
    ensures
        ({
            let (next, after) = login_step(client, Some(message));
            let later = login_read(after, rest);
            login_read(client, bytes) == match next {
                LoginView::Wait => later,
                LoginView::Send(answer) => LoggedView {
                    written: frontend_bytes(answer) + later.written,
                    ..later
                },
                _ => LoggedView {
                    written: seq![],
                    refused: login_fault(next),
                    client: after,
                    rest,
                },
            }
        }),
{
    reveal(login_read);
}

/// Of the messages that a server sends a login goes on by the first.
proof fn lemma_login_reads_first(
    client: ClientView,
    messages: Seq<BackendView>,
    rest: Seq<u8>,
)
    requires
        messages.len() > 0,
        backend_sendable(messages[0]),
    ensures
        ({
            let (next, after) = login_step(client, Some(messages[0]));
            let behind = backend_stream(messages.skip(1)) + rest;
            let later = login_read(after, behind);
            login_read(client, backend_stream(messages) + rest) == match next {
                LoginView::Wait => later,
                LoginView::Send(answer) => LoggedView {
                    written: frontend_bytes(answer) + later.written,
                    ..later
                },
                _ => LoggedView {
                    written: seq![],
                    refused: login_fault(next),
                    client: after,
                    rest: behind,
                },
            }
        }),
{
    law_backend_stream_reads_back(messages, rest);
    lemma_login_goes_on(
        client,
        backend_stream(messages) + rest,
        messages[0],
        backend_stream(messages.skip(1)) + rest,
    );
}

/// No messages are nothing on the wire.
proof fn lemma_nothing_on_the_wire(rest: Seq<u8>)
    ensures
        backend_stream(seq![]) + rest == rest,
        frontend_stream(seq![]) == Seq::<u8>::empty(),
{
}

/// Where messages can go on the wire as they are, so can those behind the
/// first.
proof fn lemma_others_are_sendable(messages: Seq<BackendView>)
    requires
        messages.len() > 0,
        forall|i: int| 0 <= i < messages.len() ==> backend_sendable(#[trigger] messages[i]),
    ensures
        forall|i: int|
            0 <= i < messages.skip(1).len() ==> backend_sendable(
                #[trigger] messages.skip(1)[i],
            ),
{
    let others = messages.skip(1);
    assert forall|i: int| 0 <= i < others.len() implies backend_sendable(#[trigger] others[i]) by {
        assert(others[i] == messages[i + 1]);
    }
}

/// A login comes to the same over the wire, and where its last message is the
/// one that ends it, what follows is left unread.
pub proof fn law_login_reads_what_it_is_told(
    client: ClientView,
    messages: Seq<BackendView>,
    rest: Seq<u8>,
)
    requires
        forall|i: int| 0 <= i < messages.len() ==> backend_sendable(#[trigger] messages[i]),
        login_run(client, messages).next !is Wait,
        login_run(client, messages.drop_last()).next is Wait,
    ensures
        ({
            let run = login_run(client, messages);
            login_read(client, backend_stream(messages) + rest) == (LoggedView {
                written: frontend_stream(run.sent),
                refused: login_fault(run.next),
                client: run.client,
                rest,
            })
        }),
    decreases messages.len(),
{
    let others = messages.skip(1);
    let (next, after) = login_step(client, Some(messages[0]));
    lemma_login_reads_first(client, messages, rest);
    if next is Wait || next is Send {
        assert(messages.len() > 1);
        assert(messages.drop_last().skip(1) == others.drop_last());
        lemma_others_are_sendable(messages);
        law_login_reads_what_it_is_told(after, others, rest);
        if let LoginView::Send(message) = next {
            lemma_stream_first(message, login_run(after, others).sent);
        }
    } else {
        assert(others == Seq::<BackendView>::empty());
        lemma_nothing_on_the_wire(rest);
    }
}

/// The first of the messages that were sent comes first on the wire.
proof fn lemma_stream_first(first: FrontendView, others: Seq<FrontendView>)
    ensures
        frontend_stream(seq![first] + others) == frontend_bytes(first) + frontend_stream(others),
{
    let each = (seq![first] + others).map_values(|message: FrontendView| frontend_bytes(message));
    assert(each.drop_first() == others.map_values(
        |message: FrontendView| frontend_bytes(message),
    ));
}

/// What a query comes to when `messages` are all that the server sends.
pub open spec fn query_run(querying: QueryingView, messages: Seq<BackendView>) -> ProgressView
    decreases messages.len(),
{
    if messages.len() == 0 {
        ProgressView::Wait(querying)
    } else {
        match query_step(querying, Some(messages[0])) {
            ProgressView::Wait(after) => query_run(after, messages.skip(1)),
            ended => ended,
        }
    }
}

/// What a query comes to when `bytes` are all that the server sends before it
/// closes.
pub open spec fn query_read(querying: QueryingView, bytes: Seq<u8>) -> ProgressView
    decreases bytes.len(),
{
    match backend_read(bytes) {
        (Ok(Some(message)), rest) => match query_step(querying, Some(message)) {
            ProgressView::Wait(after) => {
                proof {
                    lemma_typed_consumes(bytes);
                }
                query_read(after, rest)
            },
            ended => ended,
        },
        (Ok(None), _) => query_step(querying, None),
        (Err(fault), _) => ProgressView::Failed(fault),
    }
}

/// The bytes that are left unread once a query is over, when `bytes` are all
/// that the server sends before it closes.
pub open spec fn query_rest(querying: QueryingView, bytes: Seq<u8>) -> Seq<u8>
    decreases bytes.len(),
{
    match backend_read(bytes) {
        (Ok(Some(message)), rest) => match query_step(querying, Some(message)) {
            ProgressView::Wait(after) => {
                proof {
                    lemma_typed_consumes(bytes);
                }
                query_rest(after, rest)
            },
            _ => rest,
        },
        (_, rest) => rest,
    }
}

/// A query comes to the same over the wire: whatever ends it ends it there,
/// no byte of what follows is looked at, and where its last message is the
/// one that ends it, what follows is left unread.
pub proof fn law_query_reads_its_answer(
    querying: QueryingView,
    messages: Seq<BackendView>,
    rest: Seq<u8>,
)
    requires
        forall|i: int| 0 <= i < messages.len() ==> backend_sendable(#[trigger] messages[i]),
        !(query_run(querying, messages) is Wait),
    ensures
        query_read(querying, backend_stream(messages) + rest) == query_run(querying, messages),
        query_run(querying, messages.drop_last()) is Wait ==> query_rest(
            querying,
            backend_stream(messages) + rest,
        ) == rest,
    decreases messages.len(),
{
    let others = messages.skip(1);
    law_backend_stream_reads_back(messages, rest);
    if let ProgressView::Wait(after) = query_step(querying, Some(messages[0])) {
        assert(messages.len() > 1);
        assert(messages.drop_last().skip(1) == others.drop_last());
        lemma_others_are_sendable(messages);
        law_query_reads_its_answer(after, others, rest);
    } else if messages.len() == 1 {
        assert(others == Seq::<BackendView>::empty());
        lemma_nothing_on_the_wire(rest);
    }
}

/// A client that has been welcomed: it knows the version that it was told.
pub open spec fn welcomed(client: ClientView) -> ClientView {
    ClientView {
        parameters: client.parameters.push(("server_version"@, "16.0 (xmip)"@)),
        ..client
    }
}

/// What a session asks a client that it demands a password of.
pub open spec fn challenge() -> BackendView {
    BackendView::Authentication(AUTH_CLEARTEXT)
}

/// What a client is told whose password is not the one demanded.
pub open spec fn told_wrong_password(user: Seq<char>) -> BackendView {
    BackendView::ErrorResponse {
        severity: "FATAL"@,
        code: "28P01"@,
        message: wrong_password(user),
    }
}

/// A login that ended well, after `sent` was.
pub open spec fn logged_in(sent: Seq<FrontendView>, client: ClientView) -> LoginRunView {
    LoginRunView { sent, next: LoginView::Ready, client: welcomed(client) }
}

/// A client that a session welcomes is logged in, and knows the version, and
/// the last word of the welcome is what logs it in.
proof fn lemma_welcome_logs_in(client: ClientView)
    ensures
        login_run(client, welcome()) == logged_in(seq![], client),
        login_run(client, welcome().drop_last()).next is Wait,
{
    let messages = welcome();
    let after = welcomed(client);
    let run = logged_in(seq![], client);
    assert(messages.skip(1).skip(1) == messages.skip(2));
    assert(messages.skip(2).skip(1) == messages.skip(3));
    assert(login_run(after, messages.skip(3)) == run);
    assert(login_run(after, messages.skip(2)) == run);
    assert(login_run(client, messages.skip(1)) == run);
    let most = messages.drop_last();
    assert(most.skip(1).skip(1) == most.skip(2));
    assert(most.skip(2).skip(1) == Seq::<BackendView>::empty());
    assert(most.skip(2)[0] == messages[2]);
    assert(login_run(after, Seq::<BackendView>::empty()).next is Wait);
    assert(login_run(after, most.skip(2)).next is Wait);
    assert(login_run(client, most.skip(1)).next is Wait);
}

/// A client that gives the password it is asked for goes on with what it is
/// told then.
proof fn lemma_challenge_is_answered(client: ClientView, messages: Seq<BackendView>)
    requires
        client.password is Some,
    ensures
        ({
            let later = login_run(client, messages);
            login_run(client, seq![challenge()] + messages) == (LoginRunView {
                sent: seq![FrontendView::Password(client.password->0)] + later.sent,
                ..later
            })
        }),
{
    let all = seq![challenge()] + messages;
    assert(all[0] == challenge());
    assert(all.skip(1) == messages);
}

/// By trust: a session that demands no password logs in whoever opens, with
/// the user and the database that they open with.
pub proof fn law_trust_logs_in(
    client: ClientView,
    peer: Seq<char>,
    user: Seq<char>,
    database: Seq<char>,
)
    ensures
        ({
            let (next, opened) = startup_step(
                fresh(peer, None),
                Some(FrontendView::Startup { user, database }),
            );
            &&& next == AcceptingView::Welcome(welcome())
            &&& opened.user == user
            &&& opened.database == database
            &&& login_run(client, welcome()) == logged_in(seq![], client)
        }),
{
    lemma_welcome_logs_in(client);
}

/// The login is checked: a session that demands a password asks for it in the
/// clear; a client that has none gives up and says so; one that has gives it,
/// and is logged in where it is the one demanded, and where it is not both
/// ends are told, the client as `28P01`, which no later attempt mends.
pub proof fn law_login_is_checked(
    client: ClientView,
    peer: Seq<char>,
    demanded: Seq<char>,
    user: Seq<char>,
    database: Seq<char>,
)
    ensures
        ({
            let (next, opened) = startup_step(
                fresh(peer, Some(demanded)),
                Some(FrontendView::Startup { user, database }),
            );
            let asked = login_run(client, seq![challenge()]);
            &&& next == AcceptingView::Challenge(challenge())
            &&& opened.user == user
            &&& opened.database == database
            &&& match client.password {
                None => asked.next == LoginView::Refused(no_password()) && asked.sent.len() == 0,
                Some(given) => {
                    let answer = FrontendView::Password(given);
                    let judged = password_step(opened, Some(answer));
                    if given == demanded {
                        &&& judged == AcceptingView::Welcome(welcome())
                        &&& login_run(client, seq![challenge()] + welcome()) == logged_in(
                            seq![answer],
                            client,
                        )
                    } else {
                        let told = told_wrong_password(user);
                        &&& judged == AcceptingView::Refuse(
                            Some(told),
                            permanent(wrong_password(user)),
                        )
                        &&& login_run(client, seq![challenge(), told]) == (LoginRunView {
                            sent: seq![answer],
                            next: LoginView::Refused(wrong_password_told(user)),
                            client,
                        })
                    }
                },
            }
        }),
{
    lemma_welcome_logs_in(client);
    if let Some(given) = client.password {
        lemma_challenge_is_answered(client, welcome());
        assert(seq![FrontendView::Password(given)] + Seq::<FrontendView>::empty()
            == seq![FrontendView::Password(given)]);
        lemma_wrong_password_refuses(client, user);
    }
}

/// What a client gives up for that is asked for a password and has none.
pub open spec fn no_password() -> Fault {
    permanent("the server asks for a password and none is configured"@)
}

/// What a client is refused for whose password is not the one demanded.
pub open spec fn wrong_password_told(user: Seq<char>) -> Fault {
    permanent("the server answered 28P01: "@ + wrong_password(user))
}

/// A client that is told its password is wrong is refused for good.
proof fn lemma_wrong_password_refuses(client: ClientView, user: Seq<char>)
    requires
        client.password is Some,
    ensures
        ({
            let told = told_wrong_password(user);
            login_run(client, seq![challenge(), told]) == (LoginRunView {
                sent: seq![FrontendView::Password(client.password->0)],
                next: LoginView::Refused(wrong_password_told(user)),
                client,
            })
        }),
{
    let told = told_wrong_password(user);
    lemma_wrong_password_step(client, user);
    lemma_challenge_is_answered(client, seq![told]);
    assert(seq![challenge()] + seq![told] == seq![challenge(), told]);
    assert(login_run(client, seq![told]).sent == Seq::<FrontendView>::empty());
}

/// That its password is wrong is the last word on a client's login.
proof fn lemma_wrong_password_step(client: ClientView, user: Seq<char>)
    ensures
        login_step(client, Some(told_wrong_password(user))) == (
            LoginView::Refused(wrong_password_told(user)),
            client,
        ),
{
    reveal_strlit("28P01");
    reveal_strlit(": ");
    reveal_strlit("the server answered ");
    reveal_strlit("the server answered 28P01: ");
    assert("the server answered "@ + "28P01"@ + ": "@ == "the server answered 28P01: "@);
}

/// The welcome and the challenge can go on the wire as they are.
proof fn lemma_greetings_are_sendable()
    ensures
        backend_sendable(challenge()),
        forall|i: int| 0 <= i < welcome().len() ==> backend_sendable(#[trigger] welcome()[i]),
{
    reveal_strlit("server_version");
    reveal_strlit("16.0 (xmip)");
    lemma_utf8_length("server_version"@);
    lemma_utf8_length("16.0 (xmip)"@);
}

/// What a client is told of a wrong password has no NUL where its user has
/// none.
proof fn lemma_told_has_no_nul(user: Seq<char>)
    requires
        !user.contains('\0'),
    ensures
        !"FATAL"@.contains('\0'),
        !"28P01"@.contains('\0'),
        !wrong_password(user).contains('\0'),
{
    reveal_strlit("FATAL");
    reveal_strlit("28P01");
    reveal_strlit("password authentication failed for user \"");
    reveal_strlit("\"");
    lemma_joined_has_no_nul("password authentication failed for user \""@, user);
    lemma_joined_has_no_nul("password authentication failed for user \""@ + user, "\""@);
}

/// The first of the messages that a server sends comes first on the wire.
proof fn lemma_told_first(first: BackendView, others: Seq<BackendView>)
    ensures
        backend_stream(seq![first] + others) == backend_bytes(first) + backend_stream(others),
{
    let each = (seq![first] + others).map_values(|message: BackendView| backend_bytes(message));
    assert(each.drop_first() == others.map_values(|message: BackendView| backend_bytes(message)));
}

/// One message on the wire is its bytes, and none is nothing.
proof fn lemma_streams_of_one(sent: FrontendView, told: BackendView)
    ensures
        frontend_stream(seq![sent]) == frontend_bytes(sent),
        frontend_stream(seq![]) == Seq::<u8>::empty(),
        backend_stream(seq![told]) == backend_bytes(told),
{
    let none = Seq::<u8>::empty();
    lemma_stream_first(sent, seq![]);
    lemma_told_first(told, seq![]);
    assert(seq![sent] + Seq::<FrontendView>::empty() == seq![sent]);
    assert(seq![told] + Seq::<BackendView>::empty() == seq![told]);
    assert(frontend_bytes(sent) + none == frontend_bytes(sent));
    assert(backend_bytes(told) + none == backend_bytes(told));
    assert(frontend_stream(seq![]) == none);
    assert(backend_stream(seq![]) == none);
}

/// The session that a client has opened.
pub open spec fn opened(session: SessionView, user: Seq<char>, database: Seq<char>) -> SessionView {
    SessionView { user, database, ..session }
}

/// By trust, over the wire: what the client opens with is read as it was sent,
/// the session has the user and the database of it and welcomes the client,
/// and the client reads the welcome and is logged in. Neither end reads a byte
/// of what follows.
pub proof fn law_trust_logs_in_over_the_wire(
    client: ClientView,
    peer: Seq<char>,
    user: Seq<char>,
    database: Seq<char>,
    to_session: Seq<u8>,
    to_client: Seq<u8>,
)
    requires
        frontend_sendable(FrontendView::Startup { user, database }),
    ensures
        ({
            let opening = frontend_bytes(FrontendView::Startup { user, database });
            let answered = backend_stream(welcome());
            &&& accept_read(fresh(peer, None), opening + to_session) == (AcceptedView {
                written: answered,
                refused: None,
                session: opened(fresh(peer, None), user, database),
                rest: to_session,
            })
            &&& login_read(client, answered + to_client) == (LoggedView {
                written: seq![],
                refused: None,
                client: welcomed(client),
                rest: to_client,
            })
        }),
{
    let opening = FrontendView::Startup { user, database };
    law_startup_reads_back(opening, to_session);
    lemma_accept_goes_on(
        fresh(peer, None),
        frontend_bytes(opening) + to_session,
        opening,
        to_session,
    );
    lemma_greetings_are_sendable();
    lemma_welcome_logs_in(client);
    law_login_reads_what_it_is_told(client, welcome(), to_client);
    lemma_streams_of_one(FrontendView::Terminate, challenge());
}

/// What a client sends to log in with a password: what it opens with, and the
/// password when it is asked.
pub open spec fn login_bytes(user: Seq<char>, database: Seq<char>, given: Seq<char>) -> Seq<u8> {
    frontend_bytes(FrontendView::Startup { user, database }) + frontend_bytes(
        FrontendView::Password(given),
    )
}

/// Bytes behind bytes behind bytes.
proof fn lemma_behind(first: Seq<u8>, second: Seq<u8>, third: Seq<u8>)
    ensures
        first + second + third == first + (second + third),
{
}

/// A session reads the opening and the password that a client sends, and
/// judges the password.
proof fn lemma_password_is_judged(
    session: SessionView,
    user: Seq<char>,
    database: Seq<char>,
    given: Seq<char>,
    more: Seq<u8>,
)
    requires
        session.password is Some,
        frontend_sendable(FrontendView::Startup { user, database }),
        frontend_sendable(FrontendView::Password(given)),
    ensures
        ({
            let after = opened(session, user, database);
            let judged = password_step(after, Some(FrontendView::Password(given)));
            accept_read(session, login_bytes(user, database, given) + more) == (AcceptedView {
                written: backend_bytes(challenge()) + accepting_bytes(judged),
                refused: accepting_fault(judged),
                session: after,
                rest: more,
            })
        }),
{
    let opening = FrontendView::Startup { user, database };
    let answer = FrontendView::Password(given);
    let behind = frontend_bytes(answer) + more;
    lemma_behind(frontend_bytes(opening), frontend_bytes(answer), more);
    law_startup_reads_back(opening, behind);
    law_frontend_reads_back(answer, more);
    lemma_accept_goes_on(session, frontend_bytes(opening) + behind, opening, behind);
}

/// With the password that is demanded, over the wire: the session reads what
/// the client opens with, asks for the password, reads it, and has the user
/// and the database that were sent; the client reads the challenge, gives the
/// password, reads the welcome and is logged in. Neither end reads a byte of
/// what follows.
pub proof fn law_password_logs_in_over_the_wire(
    client: ClientView,
    peer: Seq<char>,
    user: Seq<char>,
    database: Seq<char>,
    to_session: Seq<u8>,
    to_client: Seq<u8>,
)
    requires
        client.password is Some,
        frontend_sendable(FrontendView::Startup { user, database }),
        frontend_sendable(FrontendView::Password(client.password->0)),
    ensures
        ({
            let given = client.password->0;
            let session = fresh(peer, Some(given));
            let answered = backend_bytes(challenge()) + backend_stream(welcome());
            &&& accept_read(session, login_bytes(user, database, given) + to_session) == (
            AcceptedView {
                written: answered,
                refused: None,
                session: opened(session, user, database),
                rest: to_session,
            })
            &&& login_read(client, answered + to_client) == (LoggedView {
                written: frontend_bytes(FrontendView::Password(given)),
                refused: None,
                client: welcomed(client),
                rest: to_client,
            })
        }),
{
    let given = client.password->0;
    let messages = seq![challenge()] + welcome();
    lemma_password_is_judged(fresh(peer, Some(given)), user, database, given, to_session);
    lemma_greetings_are_sendable();
    lemma_welcome_logs_in(client);
    lemma_challenge_is_answered(client, welcome());
    lemma_challenge_is_answered(client, welcome().drop_last());
    assert(messages.drop_last() == seq![challenge()] + welcome().drop_last());
    assert(seq![FrontendView::Password(given)] + Seq::<FrontendView>::empty()
        == seq![FrontendView::Password(given)]);
    assert forall|i: int| 0 <= i < messages.len() implies backend_sendable(
        #[trigger] messages[i],
    ) by {
        if i > 0 {
            assert(messages[i] == welcome()[i - 1]);
        }
    }
    lemma_told_first(challenge(), welcome());
    law_login_reads_what_it_is_told(client, messages, to_client);
    lemma_streams_of_one(FrontendView::Password(given), challenge());
}

/// With another password than is demanded, over the wire: the session reads it
/// and gives the client up, and tells it as `28P01`; the client reads that,
/// where it is no longer than a message may be, and is refused for good.
pub proof fn law_wrong_password_is_refused_over_the_wire(
    client: ClientView,
    peer: Seq<char>,
    demanded: Seq<char>,
    user: Seq<char>,
    database: Seq<char>,
    to_session: Seq<u8>,
    to_client: Seq<u8>,
)
    requires
        client.password is Some,
        client.password->0 != demanded,
        frontend_sendable(FrontendView::Startup { user, database }),
        frontend_sendable(FrontendView::Password(client.password->0)),
    ensures
        ({
            let given = client.password->0;
            let session = fresh(peer, Some(demanded));
            let told = told_wrong_password(user);
            let answered = backend_bytes(challenge()) + backend_bytes(told);
            &&& accept_read(session, login_bytes(user, database, given) + to_session) == (
            AcceptedView {
                written: answered,
                refused: Some(permanent(wrong_password(user))),
                session: opened(session, user, database),
                rest: to_session,
            })
            &&& backend_body(told).len() + 4 <= MAX_MESSAGE ==> login_read(
                client,
                answered + to_client,
            ) == (LoggedView {
                written: frontend_bytes(FrontendView::Password(given)),
                refused: Some(wrong_password_told(user)),
                client,
                rest: to_client,
            })
        }),
{
    let given = client.password->0;
    lemma_password_is_judged(fresh(peer, Some(demanded)), user, database, given, to_session);
    if backend_body(told_wrong_password(user)).len() + 4 <= MAX_MESSAGE {
        lemma_told_has_no_nul(user);
        lemma_wrong_password_is_read(client, user, to_client);
    }
}

/// A client reads the challenge and that its password is wrong.
proof fn lemma_wrong_password_is_read(client: ClientView, user: Seq<char>, rest: Seq<u8>)
    requires
        client.password is Some,
        backend_sendable(told_wrong_password(user)),
    ensures
        login_read(
            client,
            backend_bytes(challenge()) + backend_bytes(told_wrong_password(user)) + rest,
        ) == (LoggedView {
            written: frontend_bytes(FrontendView::Password(client.password->0)),
            refused: Some(wrong_password_told(user)),
            client,
            rest,
        }),
{
    lemma_greetings_are_sendable();
    lemma_wrong_password_step(client, user);
    lemma_asked_and_refused(
        client,
        challenge(),
        FrontendView::Password(client.password->0),
        told_wrong_password(user),
        wrong_password_told(user),
        rest,
    );
}

/// A client that answers what it is asked and is then refused has read both
/// messages and nothing more.
proof fn lemma_asked_and_refused(
    client: ClientView,
    asked: BackendView,
    answer: FrontendView,
    told: BackendView,
    fault: Fault,
    rest: Seq<u8>,
)
    requires
        backend_sendable(asked),
        backend_sendable(told),
        login_step(client, Some(asked)) == (LoginView::Send(answer), client),
        login_step(client, Some(told)) == (LoginView::Refused(fault), client),
    ensures
        login_read(client, backend_bytes(asked) + backend_bytes(told) + rest) == (LoggedView {
            written: frontend_bytes(answer),
            refused: Some(fault),
            client,
            rest,
        }),
{
    let behind = backend_bytes(told) + rest;
    lemma_behind(backend_bytes(asked), backend_bytes(told), rest);
    law_backend_reads_back(asked, behind);
    law_backend_reads_back(told, rest);
    lemma_asked_and_refused_as_read(
        client,
        asked,
        answer,
        told,
        fault,
        backend_bytes(asked) + behind,
        behind,
        rest,
    );
}

/// A client that has read what it is asked and then that it is refused.
proof fn lemma_asked_and_refused_as_read(
    client: ClientView,
    asked: BackendView,
    answer: FrontendView,
    told: BackendView,
    fault: Fault,
    bytes: Seq<u8>,
    behind: Seq<u8>,
    rest: Seq<u8>,
)
    requires
        login_step(client, Some(asked)) == (LoginView::Send(answer), client),
        login_step(client, Some(told)) == (LoginView::Refused(fault), client),
        backend_read(bytes) == (Ok::<Option<BackendView>, Fault>(Some(asked)), behind),
        backend_read(behind) == (Ok::<Option<BackendView>, Fault>(Some(told)), rest),
    ensures
        login_read(client, bytes) == (LoggedView {
            written: frontend_bytes(answer),
            refused: Some(fault),
            client,
            rest,
        }),
{
    lemma_login_goes_on(client, bytes, asked, behind);
    lemma_login_goes_on(client, behind, told, rest);
    assert(frontend_bytes(answer) + Seq::<u8>::empty() == frontend_bytes(answer));
}

/// Without a password where one is demanded, over the wire: the client reads
/// the challenge and gives up, sending nothing; and the session, which then
/// sees it close, gives it up too.
pub proof fn law_no_password_is_refused_over_the_wire(
    client: ClientView,
    peer: Seq<char>,
    demanded: Seq<char>,
    user: Seq<char>,
    database: Seq<char>,
    to_client: Seq<u8>,
)
    requires
        client.password is None,
        frontend_sendable(FrontendView::Startup { user, database }),
    ensures
        ({
            let session = fresh(peer, Some(demanded));
            let opening = frontend_bytes(FrontendView::Startup { user, database });
            &&& accept_read(session, opening) == (AcceptedView {
                written: backend_bytes(challenge()),
                refused: Some(permanent("the client did not answer with a password"@)),
                session: opened(session, user, database),
                rest: seq![],
            })
            &&& login_read(client, backend_bytes(challenge()) + to_client) == (LoggedView {
                written: seq![],
                refused: Some(no_password()),
                client,
                rest: to_client,
            })
        }),
{
    let none = Seq::<u8>::empty();
    let session = fresh(peer, Some(demanded));
    let opening = FrontendView::Startup { user, database };
    law_startup_reads_back(opening, none);
    assert(frontend_bytes(opening) + none == frontend_bytes(opening));
    lemma_accept_goes_on(session, frontend_bytes(opening), opening, none);
    assert(backend_bytes(challenge()) + none == backend_bytes(challenge()));
    lemma_greetings_are_sendable();
    law_backend_reads_back(challenge(), to_client);
    lemma_login_goes_on(
        client,
        backend_bytes(challenge()) + to_client,
        challenge(),
        to_client,
    );
}

/// The password goes out only where the server asks for it in the clear, and
/// it is the one that the client was given.
pub proof fn law_password_is_sent_only_when_asked(
    client: ClientView,
    message: Option<BackendView>,
)
    ensures
        login_step(client, message).0 matches LoginView::Send(sent) ==> {
            &&& message == Some(BackendView::Authentication(AUTH_CLEARTEXT))
            &&& client.password matches Some(password) && sent == FrontendView::Password(password)
        },
{
}

/// Rows are kept in the order in which they come.
proof fn lemma_rows_are_kept(
    querying: QueryingView,
    rows: Seq<Seq<Option<Seq<char>>>>,
    rest: Seq<BackendView>,
)
    ensures
        query_run(
            querying,
            rows.map_values(|row: Seq<Option<Seq<char>>>| BackendView::DataRow(row)) + rest,
        ) == query_run(
            QueryingView {
                result: QueryResultView {
                    rows: querying.result.rows + rows,
                    ..querying.result
                },
                ..querying
            },
            rest,
        ),
    decreases rows.len(),
{
    let data = rows.map_values(|row: Seq<Option<Seq<char>>>| BackendView::DataRow(row));
    let kept = querying.result.rows;
    if rows.len() == 0 {
        assert(data + rest == rest);
        assert(kept + rows == kept);
    } else {
        let tail = rows.skip(1);
        let after = QueryingView {
            result: QueryResultView { rows: kept.push(rows[0]), ..querying.result },
            ..querying
        };
        assert((data + rest)[0] == BackendView::DataRow(rows[0]));
        assert((data + rest).skip(1) == tail.map_values(
            |row: Seq<Option<Seq<char>>>| BackendView::DataRow(row),
        ) + rest);
        lemma_rows_are_kept(after, tail, rest);
        assert(kept.push(rows[0]) + tail == kept + rows);
    }
}

/// What the client comes to by the messages that a query is answered with:
/// the columns, the rows and the tag that the answer has, or the error that
/// it is.
pub open spec fn collected(answer: AnswerView) -> ProgressView {
    match answer {
        AnswerView::Rows { columns, rows } => ProgressView::Done(
            QueryResultView { columns, rows, tag: "SELECT "@ + decimal(rows.len()) },
        ),
        AnswerView::Complete(tag) => ProgressView::Done(
            QueryResultView { columns: seq![], rows: seq![], tag },
        ),
        AnswerView::Error { code, message } => ProgressView::Failed(sql_fault(code, message)),
    }
}

/// A query comes back with what the session answers it with: the columns,
/// every row in its order and the tag, or the error.
pub proof fn law_query_collects_its_answer(answer: AnswerView, status: u8)
    ensures
        query_run(
            just_asked(),
            answer_messages(answer).push(BackendView::ReadyForQuery(status)),
        ) == collected(answer),
{
    let ready = BackendView::ReadyForQuery(status);
    let messages = answer_messages(answer).push(ready);
    match answer {
        AnswerView::Rows { columns, rows } => {
            let tag = "SELECT "@ + decimal(rows.len());
            let end = seq![BackendView::CommandComplete(tag), ready];
            let described = QueryingView {
                result: QueryResultView { columns, ..no_result() },
                failed: None,
            };
            let filled = QueryingView {
                result: QueryResultView { rows, ..described.result },
                failed: None,
            };
            assert(messages[0] == BackendView::RowDescription(columns));
            assert(messages.skip(1) == rows.map_values(
                |row: Seq<Option<Seq<char>>>| BackendView::DataRow(row),
            ) + end);
            lemma_rows_are_kept(described, rows, end);
            assert(described.result.rows + rows == rows);
            assert(end.skip(1) == seq![ready]);
            reveal_with_fuel(query_run, 2);
            assert(query_run(filled, end) == collected(answer));
        },
        AnswerView::Complete(_) => {
            assert(messages.skip(1) == seq![ready]);
            reveal_with_fuel(query_run, 2);
        },
        AnswerView::Error { .. } => {
            assert(messages.skip(1) == seq![ready]);
            reveal_with_fuel(query_run, 2);
        },
    }
}

/// The messages of an answer are waited past; what ends the query is that the
/// server is ready again.
proof fn lemma_answer_is_waited_past(answer: AnswerView)
    ensures
        query_run(just_asked(), answer_messages(answer)) is Wait,
{
    let messages = answer_messages(answer);
    match answer {
        AnswerView::Rows { columns, rows } => {
            let end = seq![BackendView::CommandComplete("SELECT "@ + decimal(rows.len()))];
            let described = QueryingView {
                result: QueryResultView { columns, ..no_result() },
                failed: None,
            };
            assert(messages[0] == BackendView::RowDescription(columns));
            assert(messages.skip(1) == rows.map_values(
                |row: Seq<Option<Seq<char>>>| BackendView::DataRow(row),
            ) + end);
            lemma_rows_are_kept(described, rows, end);
            reveal_with_fuel(query_run, 2);
        },
        _ => {
            reveal_with_fuel(query_run, 2);
        },
    }
}

/// A query reads its own answer off the wire, up to and with the message that
/// the server is ready again, and leaves what follows to the next query.
pub proof fn law_query_reads_just_its_answer(answer: AnswerView, status: u8, rest: Seq<u8>)
    requires
        forall|i: int|
            0 <= i < answer_messages(answer).len() ==> backend_sendable(
                #[trigger] answer_messages(answer)[i],
            ),
    ensures
        ({
            let bytes = backend_stream(
                answer_messages(answer).push(BackendView::ReadyForQuery(status)),
            ) + rest;
            &&& query_read(just_asked(), bytes) == collected(answer)
            &&& query_rest(just_asked(), bytes) == rest
        }),
{
    let ready = BackendView::ReadyForQuery(status);
    let messages = answer_messages(answer).push(ready);
    assert forall|i: int| 0 <= i < messages.len() implies backend_sendable(
        #[trigger] messages[i],
    ) by {
        if i < answer_messages(answer).len() {
            assert(messages[i] == answer_messages(answer)[i]);
        }
    }
    law_query_collects_its_answer(answer, status);
    lemma_answer_is_waited_past(answer);
    assert(messages.drop_last() == answer_messages(answer));
    law_query_reads_its_answer(just_asked(), messages, rest);
}

/// One more message goes to a query where those before it have left it, unless
/// they have ended it.
proof fn lemma_query_run_push(
    querying: QueryingView,
    messages: Seq<BackendView>,
    message: BackendView,
)
    ensures
        query_run(querying, messages.push(message)) == match query_run(querying, messages) {
            ProgressView::Wait(after) => query_step(after, Some(message)),
            ended => ended,
        },
    decreases messages.len(),
{
    let all = messages.push(message);
    if messages.len() == 0 {
        assert(all[0] == message);
        assert(all.skip(1) == Seq::<BackendView>::empty());
        reveal_with_fuel(query_run, 2);
    } else {
        assert(all[0] == messages[0]);
        assert(all.skip(1) == messages.skip(1).push(message));
        if let ProgressView::Wait(after) = query_step(querying, Some(messages[0])) {
            lemma_query_run_push(after, messages.skip(1), message);
        }
    }
}

/// The rows among messages, in their order.
pub open spec fn rows_among(messages: Seq<BackendView>) -> Seq<Seq<Option<Seq<char>>>> {
    messages.filter_map(
        |message: BackendView|
            match message {
                BackendView::DataRow(row) => Some(row),
                _ => None,
            },
    )
}

/// The descriptions among messages, in their order.
pub open spec fn descriptions_among(messages: Seq<BackendView>) -> Seq<Seq<Seq<char>>> {
    messages.filter_map(
        |message: BackendView|
            match message {
                BackendView::RowDescription(columns) => Some(columns),
                _ => None,
            },
    )
}

/// The tags among messages, in their order.
pub open spec fn tags_among(messages: Seq<BackendView>) -> Seq<Seq<char>> {
    messages.filter_map(
        |message: BackendView|
            match message {
                BackendView::CommandComplete(tag) => Some(tag),
                _ => None,
            },
    )
}

/// The errors among messages, each its code and its words, in their order.
pub open spec fn errors_among(messages: Seq<BackendView>) -> Seq<(Seq<char>, Seq<char>)> {
    messages.filter_map(
        |message: BackendView|
            match message {
                BackendView::ErrorResponse { code, message, .. } => Some((code, message)),
                _ => None,
            },
    )
}

/// The last of some texts, or an empty one where there are none.
pub open spec fn last_or_empty<T>(texts: Seq<Seq<T>>) -> Seq<T> {
    if texts.len() == 0 {
        seq![]
    } else {
        texts.last()
    }
}

/// What has come of a query by messages that do not end it.
proof fn lemma_query_keeps(messages: Seq<BackendView>)
    requires
        forall|i: int| 0 <= i < messages.len() ==> !(#[trigger] messages[i] is ReadyForQuery),
    ensures
        query_run(just_asked(), messages) == ProgressView::Wait(
            QueryingView {
                result: QueryResultView {
                    columns: last_or_empty(descriptions_among(messages)),
                    rows: rows_among(messages),
                    tag: last_or_empty(tags_among(messages)),
                },
                failed: if errors_among(messages).len() == 0 {
                    None
                } else {
                    Some(sql_fault(errors_among(messages).last().0, errors_among(messages).last().1))
                },
            },
        ),
    decreases messages.len(),
{
    if messages.len() > 0 {
        let shorter = messages.drop_last();
        assert forall|i: int| 0 <= i < shorter.len() implies !(
        #[trigger] shorter[i] is ReadyForQuery) by {
            assert(shorter[i] == messages[i]);
        }
        lemma_query_keeps(shorter);
        assert(shorter.push(messages.last()) == messages);
        lemma_query_run_push(just_asked(), shorter, messages.last());
        assert(messages[messages.len() - 1] == messages.last());
        if let BackendView::DataRow(row) = messages.last() {
            assert(rows_among(shorter).push(row) == rows_among(messages));
        }
    }
}

/// A query that the server is done with comes back with every row that came,
/// in its order, with the last description and the last tag, whatever they
/// say; or, where an error came, with the last of those. Whatever else comes
/// in between changes nothing.
pub proof fn law_a_query_keeps_all_that_comes(messages: Seq<BackendView>, status: u8)
    requires
        forall|i: int| 0 <= i < messages.len() ==> !(#[trigger] messages[i] is ReadyForQuery),
    ensures
        query_run(just_asked(), messages.push(BackendView::ReadyForQuery(status))) == if errors_among(
            messages,
        ).len() == 0 {
            ProgressView::Done(
                QueryResultView {
                    columns: last_or_empty(descriptions_among(messages)),
                    rows: rows_among(messages),
                    tag: last_or_empty(tags_among(messages)),
                },
            )
        } else {
            ProgressView::Failed(
                sql_fault(errors_among(messages).last().0, errors_among(messages).last().1),
            )
        },
{
    lemma_query_keeps(messages);
    lemma_query_run_push(just_asked(), messages, BackendView::ReadyForQuery(status));
}

/// Rows are kept whatever tag completes them: those of a DELETE that returns
/// what it deleted as those of a SELECT.
pub proof fn law_rows_are_kept_whatever_the_tag(
    columns: Seq<Seq<char>>,
    rows: Seq<Seq<Option<Seq<char>>>>,
    tag: Seq<char>,
    status: u8,
)
    ensures
        query_run(
            just_asked(),
            seq![BackendView::RowDescription(columns)] + rows.map_values(
                |row: Seq<Option<Seq<char>>>| BackendView::DataRow(row),
            ) + seq![BackendView::CommandComplete(tag), BackendView::ReadyForQuery(status)],
        ) == ProgressView::Done(QueryResultView { columns, rows, tag }),
{
    let ready = BackendView::ReadyForQuery(status);
    let complete = BackendView::CommandComplete(tag);
    let data = rows.map_values(|row: Seq<Option<Seq<char>>>| BackendView::DataRow(row));
    let messages = seq![BackendView::RowDescription(columns)] + data + seq![complete, ready];
    let end = seq![complete, ready];
    let described = QueryingView {
        result: QueryResultView { columns, ..no_result() },
        failed: None,
    };
    let filled = QueryingView {
        result: QueryResultView { rows, ..described.result },
        failed: None,
    };
    assert(messages[0] == BackendView::RowDescription(columns));
    assert(messages.skip(1) == data + end);
    lemma_rows_are_kept(described, rows, end);
    assert(described.result.rows + rows == rows);
    assert(end.skip(1) == seq![ready]);
    reveal_with_fuel(query_run, 2);
    assert(query_run(filled, end) == ProgressView::Done(QueryResultView { columns, rows, tag }));
}

/// A server that closes before it is ready fails the query for good, whatever
/// came before.
pub proof fn law_a_server_that_closes_fails_the_query(querying: QueryingView)
    ensures
        query_step(querying, None) == ProgressView::Failed(
            Fault { message: "the server closed mid-query"@, retryable: false },
        ),
        query_read(querying, seq![]) == ProgressView::Failed(
            Fault { message: "the server closed mid-query"@, retryable: false },
        ),
{
}

/// Whoever runs a statement for its effect gets its tag, or its error, when
/// whoever runs it for its rows gets those.
pub proof fn law_a_statement_comes_to_its_tag(
    querying: QueryingView,
    result: QueryResultView,
    fault: Fault,
)
    ensures
        execution_of(ProgressView::Wait(querying)) == ExecutionView::Wait(querying),
        execution_of(ProgressView::Done(result)) == ExecutionView::Done(result.tag),
        execution_of(ProgressView::Failed(fault)) == ExecutionView::Failed(fault),
{
}

/// An error is worth another try exactly where its SQLSTATE class says that
/// the trouble is the connection, a rollback, a resource or an operator; and
/// it says what the server said.
pub proof fn law_an_error_is_judged_by_its_class(
    class: Seq<char>,
    rest: Seq<char>,
    message: Seq<char>,
)
    requires
        class.len() == 2,
    ensures
        sql_fault(class + rest, message).retryable <==> class == "08"@ || class == "40"@ || class
            == "53"@ || class == "57"@,
        sql_fault(class + rest, message).message == "the server answered "@ + (class + rest) + ": "@
            + message,
        !sql_fault(class.take(1), message).retryable,
        !sql_fault(seq![], message).retryable,
{
    reveal_strlit("08");
    reveal_strlit("40");
    reveal_strlit("53");
    reveal_strlit("57");
    let code = class + rest;
    assert(code[0] == class[0] && code[1] == class[1]);
    assert(class == seq![class[0], class[1]]);
    assert("08"@ == seq!['0', '8']);
    assert("40"@ == seq!['4', '0']);
    assert("53"@ == seq!['5', '3']);
    assert("57"@ == seq!['5', '7']);
}

/// A parameter is the first that the server reported under its name, and none
/// where it reported none.
pub proof fn law_a_parameter_is_the_first_of_its_name(
    before: Seq<(Seq<char>, Seq<char>)>,
    name: Seq<char>,
    value: Seq<char>,
    after: Seq<(Seq<char>, Seq<char>)>,
)
    requires
        forall|i: int| 0 <= i < before.len() ==> (#[trigger] before[i]).0 != name,
    ensures
        parameter_of(before + seq![(name, value)] + after, name) == Some(value),
        parameter_of(before, name) is None,
    decreases before.len(),
{
    let all = before + seq![(name, value)] + after;
    if before.len() == 0 {
        assert(all[0] == (name, value));
    } else {
        let others = before.skip(1);
        assert(all[0] == before[0]);
        assert(all.skip(1) == others + seq![(name, value)] + after);
        assert forall|i: int| 0 <= i < others.len() implies (#[trigger] others[i]).0 != name by {
            assert(others[i] == before[i + 1]);
        }
        assert(before[0].0 != name);
        law_a_parameter_is_the_first_of_its_name(others, name, value, after);
    }
}

/// The method decides a login: done is waited past, a password in the clear is
/// given where there is one, and anything else is refused for good and named.
pub proof fn law_the_method_decides(client: ClientView, method: i32)
    ensures
        ({
            let (next, after) = login_step(client, Some(BackendView::Authentication(method)));
            let name = if method == 5 {
                "MD5"@
            } else if method == 10 {
                "SCRAM"@
            } else {
                "method "@ + signed_decimal(method as int)
            };
            &&& after == client
            &&& method == 0 ==> next == LoginView::Wait
            &&& method == 3 && client.password is Some ==> next == LoginView::Send(
                FrontendView::Password(client.password->0),
            )
            &&& method == 3 && client.password is None ==> next == LoginView::Refused(
                Fault {
                    message: "the server asks for a password and none is configured"@,
                    retryable: false,
                },
            )
            &&& method != 0 && method != 3 ==> next == LoginView::Refused(
                Fault {
                    message: "the server asks for "@ + name
                        + ", and this crate speaks trust and cleartext only"@,
                    retryable: false,
                },
            )
        }),
{
}

/// A login is refused with the error that the server answers, and for good
/// where the server closes.
pub proof fn law_a_login_that_fails(
    client: ClientView,
    severity: Seq<char>,
    code: Seq<char>,
    message: Seq<char>,
)
    ensures
        login_step(client, Some(BackendView::ErrorResponse { severity, code, message })) == (
            LoginView::Refused(sql_fault(code, message)),
            client,
        ),
        login_step(client, None) == (
            LoginView::Refused(
                Fault { message: "the server closed during the login"@, retryable: false },
            ),
            client,
        ),
{
}

/// One more message goes to a login where those before it have left it.
proof fn lemma_login_run_push(
    client: ClientView,
    messages: Seq<BackendView>,
    message: BackendView,
)
    requires
        login_run(client, messages).next is Wait,
    ensures
        ({
            let before = login_run(client, messages);
            let (next, after) = login_step(before.client, Some(message));
            login_run(client, messages.push(message)) == match next {
                LoginView::Send(answer) => LoginRunView {
                    sent: before.sent.push(answer),
                    next: LoginView::Wait,
                    client: after,
                },
                _ => LoginRunView { sent: before.sent, next, client: after },
            }
        }),
    decreases messages.len(),
{
    let all = messages.push(message);
    if messages.len() == 0 {
        let none = Seq::<FrontendView>::empty();
        let (next, after) = login_step(client, Some(message));
        assert(all[0] == message);
        assert(all.skip(1) == Seq::<BackendView>::empty());
        assert(login_run(after, Seq::<BackendView>::empty()) == (LoginRunView {
            sent: none,
            next: LoginView::Wait,
            client: after,
        }));
        if let LoginView::Send(answer) = next {
            assert(seq![answer] + none == none.push(answer));
        }
    } else {
        let others = messages.skip(1);
        let (next, after) = login_step(client, Some(messages[0]));
        assert(all[0] == messages[0]);
        assert(all.skip(1) == others.push(message));
        lemma_login_run_push(after, others, message);
        if let LoginView::Send(first) = next {
            let later = login_run(after, others);
            let (last, _) = login_step(later.client, Some(message));
            if let LoginView::Send(answer) = last {
                assert(seq![first] + later.sent.push(answer) == (seq![first] + later.sent).push(
                    answer,
                ));
            }
        }
    }
}

/// The parameters among messages, in their order.
pub open spec fn parameters_among(messages: Seq<BackendView>) -> Seq<(Seq<char>, Seq<char>)> {
    messages.filter_map(
        |message: BackendView|
            match message {
                BackendView::ParameterStatus { name, value } => Some((name, value)),
                _ => None,
            },
    )
}

/// The passwords that messages ask a client for which has this one.
pub open spec fn passwords_asked_for(
    messages: Seq<BackendView>,
    password: Seq<char>,
) -> Seq<FrontendView> {
    messages.filter_map(
        |message: BackendView|
            if message == BackendView::Authentication(3) {
                Some(FrontendView::Password(password))
            } else {
                None
            },
    )
}

/// Whether a message neither ends the login of a client nor asks it for what
/// it cannot give.
pub open spec fn waited_past(client: ClientView, message: BackendView) -> bool {
    match message {
        BackendView::ReadyForQuery(_) => false,
        BackendView::ErrorResponse { .. } => false,
        BackendView::Authentication(method) => method == 0 || (method == 3 && client.password
            is Some),
        _ => true,
    }
}

/// What has come of a login by messages that do not end it.
proof fn lemma_login_keeps(client: ClientView, messages: Seq<BackendView>)
    requires
        forall|i: int|
            0 <= i < messages.len() ==> waited_past(client, #[trigger] messages[i]),
    ensures
        login_run(client, messages) == (LoginRunView {
            sent: passwords_asked_for(messages, client.password->0),
            next: LoginView::Wait,
            client: ClientView {
                parameters: client.parameters + parameters_among(messages),
                ..client
            },
        }),
    decreases messages.len(),
{
    if messages.len() == 0 {
        assert(client.parameters + parameters_among(messages) == client.parameters);
    } else {
        let shorter = messages.drop_last();
        let last = messages.last();
        assert forall|i: int| 0 <= i < shorter.len() implies waited_past(
            client,
            #[trigger] shorter[i],
        ) by {
            assert(shorter[i] == messages[i]);
        }
        assert(waited_past(client, messages[messages.len() - 1]));
        lemma_login_keeps(client, shorter);
        assert(shorter.push(last) == messages);
        lemma_login_run_push(client, shorter, last);
        let before = client.parameters + parameters_among(shorter);
        if let BackendView::ParameterStatus { name, value } = last {
            assert(before.push((name, value)) == client.parameters + parameters_among(messages));
        }
        if last == BackendView::Authentication(3) {
            let answer = FrontendView::Password(client.password->0);
            assert(passwords_asked_for(shorter, client.password->0).push(answer)
                == passwords_asked_for(messages, client.password->0));
        }
    }
}

/// A login ends well when the server is ready, having kept every parameter
/// that was reported, in its order, having given the password as often as it
/// was asked for, and having passed over whatever else came.
pub proof fn law_a_login_keeps_all_that_comes(
    client: ClientView,
    messages: Seq<BackendView>,
    status: u8,
)
    requires
        forall|i: int|
            0 <= i < messages.len() ==> waited_past(client, #[trigger] messages[i]),
    ensures
        login_run(client, messages.push(BackendView::ReadyForQuery(status))) == (LoginRunView {
            sent: passwords_asked_for(messages, client.password->0),
            next: LoginView::Ready,
            client: ClientView {
                parameters: client.parameters + parameters_among(messages),
                ..client
            },
        }),
{
    lemma_login_keeps(client, messages);
    lemma_login_run_push(client, messages, BackendView::ReadyForQuery(status));
}

} // verus!
