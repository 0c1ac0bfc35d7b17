//! The server's side of one connection: what a test puts at the far end,
//! and what the playground drives.
//!
//! Not a database. One session does the login for one client — trust, or
//! a cleartext password it demands and checks — and answers each query
//! from what its owner says of it or from one fixed table: any SELECT gets
//! the table's rows, an INSERT of one column is recorded as a Stream,
//! anything else is completed with its own verb. Planning, storage and SQL
//! are a database's.

use vstd::prelude::*;

use crate::arrived::{Arrived, ArrivedView};
use crate::backend::{backend_bytes, backend_stream, Backend, BackendView};
use crate::bytea::{carried, column_bytes};
use crate::error::{permanent, protocol_error, Fault, TransportError};
use crate::frontend::{
    frontend_bytes, frontend_read, law_startup_reads_back, startup_read, Frontend, FrontendView,
};
use crate::sql::{
    blank, law_a_sign_is_read_where_it_comes, law_a_word_is_read_where_it_comes,
    law_quoted_unquotes, law_the_verb_is_the_first_word, law_trimming_takes_white_space_off,
    law_unquoted_was_quoted, law_what_a_bare_name_is_made_of, lemma_past_word, lemma_run_is_such,
    lemma_run_whole, lemma_trimmed_blank, lemma_trimmed_solid, lemma_trimmed_space,
    name_characters, past_sign, past_word, quoted, run, sign_then, skip_name, skip_sign,
    skip_space, skip_word, trimmed, unquote_prefix, unquoted, upper, verb, verb_of,
    word_characters, word_then,
};
use crate::text::{
    ascii_upper, characters, debug_str, decimal, number, same, spelled, str_debug, white_space,
};
use crate::wire::{lemma_opening_consumes, AUTH_CLEARTEXT, AUTH_OK};

verus! {

/// What the client did, as [`Session::next_event`] reports it.
#[derive(Clone, Debug, PartialEq, Eq)]
pub enum Event {
    /// The client ran a SELECT; here it is.
    Selected(String),
    /// The client inserted one value; here is the Stream.
    Inserted(Arrived),
    /// The client ran something else; here it is.
    Executed(String),
}

/// What the client did, its strings as their characters.
pub enum EventView {
    Selected(Seq<char>),
    Inserted(ArrivedView),
    Executed(Seq<char>),
}

impl View for Event {
    type V = EventView;

    open spec fn view(&self) -> EventView {
        match *self {
            Event::Selected(sql) => EventView::Selected(sql@),
            Event::Inserted(arrived) => EventView::Inserted(arrived@),
            Event::Executed(sql) => EventView::Executed(sql@),
        }
    }
}

impl Event {
    /// The Stream, where one was inserted.
    pub fn inserted(self) -> (stream: Option<Arrived>)
        ensures
            match self@ {
                EventView::Inserted(arrived) => stream matches Some(a) && a@ == arrived,
                _ => stream is None,
            },
    {
        match self {
            Self::Inserted(arrived) => Some(arrived),
            Self::Selected(_) | Self::Executed(_) => None,
        }
    }
}

/// How a query is answered.
#[derive(Clone, Debug, PartialEq, Eq)]
pub enum Answer {
    Rows { columns: Vec<String>, rows: Vec<Vec<Option<String>>> },
    Complete(String),
    Error { code: String, message: String },
}

/// How a query is answered, the strings as their characters.
pub enum AnswerView {
    Rows { columns: Seq<Seq<char>>, rows: Seq<Seq<Option<Seq<char>>>> },
    Complete(Seq<char>),
    Error { code: Seq<char>, message: Seq<char> },
}

impl View for Answer {
    type V = AnswerView;

    open spec fn view(&self) -> AnswerView {
        match *self {
            Answer::Rows { columns, rows } => AnswerView::Rows {
                columns: columns.deep_view(),
                rows: rows.deep_view(),
            },
            Answer::Complete(tag) => AnswerView::Complete(tag@),
            Answer::Error { code, message } => AnswerView::Error {
                code: code@,
                message: message@,
            },
        }
    }
}

impl DeepView for Answer {
    type V = AnswerView;

    open spec fn deep_view(&self) -> AnswerView {
        self@
    }
}

/// What logging a client in comes to next.
pub enum Accepting {
    /// Decline TLS by writing this byte, and read what the client opens with
    /// instead.
    Decline(u8),
    /// Send the message, and read the password that answers it.
    Challenge(Backend),
    /// Send the messages; the client is logged in.
    Welcome(Vec<Backend>),
    /// Send the message where there is one, and give the client up for the
    /// error.
    Refuse(Option<Backend>, TransportError),
}

/// What logging a client in comes to next, the strings as their characters.
pub enum AcceptingView {
    Decline(u8),
    Challenge(BackendView),
    Welcome(Seq<BackendView>),
    Refuse(Option<BackendView>, Fault),
}

impl View for Accepting {
    type V = AcceptingView;

    open spec fn view(&self) -> AcceptingView {
        match *self {
            Accepting::Decline(byte) => AcceptingView::Decline(byte),
            Accepting::Challenge(message) => AcceptingView::Challenge(message@),
            Accepting::Welcome(messages) => AcceptingView::Welcome(messages.deep_view()),
            Accepting::Refuse(message, error) => AcceptingView::Refuse(message.deep_view(), error@),
        }
    }
}

/// What a message from a logged-in client comes to.
pub enum Turn {
    /// It ran a query: send the messages, and report what it did.
    Reply { messages: Vec<Backend>, event: Event },
    /// Nothing comes of it; read the next.
    Ignore,
    /// It hung up.
    Closed,
}

/// What a message from a logged-in client comes to, the strings as their
/// characters.
pub enum TurnView {
    Reply { messages: Seq<BackendView>, event: EventView },
    Ignore,
    Closed,
}

impl View for Turn {
    type V = TurnView;

    open spec fn view(&self) -> TurnView {
        match *self {
            Turn::Reply { messages, event } => TurnView::Reply {
                messages: messages.deep_view(),
                event: event@,
            },
            Turn::Ignore => TurnView::Ignore,
            Turn::Closed => TurnView::Closed,
        }
    }
}

/// What a message from a logged-in client comes to for an owner who waits
/// for a value to be inserted.
pub enum Taking {
    /// Send the messages; here is the Stream.
    Taken { messages: Vec<Backend>, stream: Arrived },
    /// Send the messages, which may be none, and read the next.
    Wait(Vec<Backend>),
    /// The client hung up.
    Closed,
}

/// What a message from a logged-in client comes to for an owner who waits
/// for a value to be inserted, the strings as their characters.
pub enum TakingView {
    Taken { messages: Seq<BackendView>, stream: ArrivedView },
    Wait(Seq<BackendView>),
    Closed,
}

impl View for Taking {
    type V = TakingView;

    open spec fn view(&self) -> TakingView {
        match *self {
            Taking::Taken { messages, stream } => TakingView::Taken {
                messages: messages.deep_view(),
                stream: stream@,
            },
            Taking::Wait(messages) => TakingView::Wait(messages.deep_view()),
            Taking::Closed => TakingView::Closed,
        }
    }
}

/// The server's side of one connection. Reading and writing are its owner's:
/// each message that comes in is handed to it, and it says what to send and
/// what to do next.
pub struct Session {
    peer: String,
    password: Option<String>,
    user: String,
    database: String,
    columns: Vec<String>,
    rows: Vec<Vec<Option<String>>>,
}

/// What a session knows: who the client is, the password to demand, the user
/// and database that the client opened with, and the table that answers a
/// SELECT.
pub struct SessionView {
    pub peer: Seq<char>,
    pub password: Option<Seq<char>>,
    pub user: Seq<char>,
    pub database: Seq<char>,
    pub columns: Seq<Seq<char>>,
    pub rows: Seq<Seq<Option<Seq<char>>>>,
}

impl View for Session {
    type V = SessionView;

    closed spec fn view(&self) -> SessionView {
        SessionView {
            peer: self.peer@,
            password: self.password.deep_view(),
            user: self.user@,
            database: self.database@,
            columns: self.columns.deep_view(),
            rows: self.rows.deep_view(),
        }
    }
}

/// A session that no client has opened yet.
pub open spec fn fresh(peer: Seq<char>, password: Option<Seq<char>>) -> SessionView {
    SessionView {
        peer,
        password,
        user: seq![],
        database: seq![],
        columns: seq![],
        rows: seq![],
    }
}

/// What a client is told when it is logged in: that it is, the version, the
/// key, and that it may ask.
pub open spec fn welcome() -> Seq<BackendView> {
    seq![
        BackendView::Authentication(AUTH_OK),
        BackendView::ParameterStatus { name: "server_version"@, value: "16.0 (xmip)"@ },
        BackendView::BackendKeyData { process: 1, secret: 0 },
        BackendView::ReadyForQuery('I' as u8),
    ]
}

/// What a message that should open the connection comes to, and the session
/// after it: a startup names the user and the database, and is challenged
/// where there is a password to demand; a request for TLS is declined;
/// anything else, and a client that closed, is refused.
pub open spec fn startup_step(session: SessionView, message: Option<FrontendView>) -> (
    AcceptingView,
    SessionView,
) {
    match message {
        Some(FrontendView::SslRequest) => (AcceptingView::Decline('N' as u8), session),
        Some(FrontendView::Startup { user, database }) => (
            if session.password is Some {
                AcceptingView::Challenge(BackendView::Authentication(AUTH_CLEARTEXT))
            } else {
                AcceptingView::Welcome(welcome())
            },
            SessionView { user, database, ..session },
        ),
        _ => (
            AcceptingView::Refuse(
                None,
                permanent("the client did not open with a startup message"@),
            ),
            session,
        ),
    }
}

/// What a client is told whose password is not the one demanded.
pub open spec fn wrong_password(user: Seq<char>) -> Seq<char> {
    "password authentication failed for user \""@ + user + "\""@
}

/// What the answer to the challenge comes to: the password that is demanded
/// lets the client in; another one is told to it as `28P01`; anything else,
/// and a client that closed, is refused.
pub open spec fn password_step(
    session: SessionView,
    message: Option<FrontendView>,
) -> AcceptingView {
    match message {
        Some(FrontendView::Password(given)) => match session.password {
            Some(expected) => if given == expected {
                AcceptingView::Welcome(welcome())
            } else {
                AcceptingView::Refuse(
                    Some(
                        BackendView::ErrorResponse {
                            severity: "FATAL"@,
                            code: "28P01"@,
                            message: wrong_password(session.user),
                        },
                    ),
                    permanent(wrong_password(session.user)),
                )
            },
            None => AcceptingView::Welcome(welcome()),
        },
        _ => AcceptingView::Refuse(
            None,
            permanent("the client did not answer with a password"@),
        ),
    }
}

/// What is written to the client when logging it in comes to this.
pub open spec fn accepting_bytes(next: AcceptingView) -> Seq<u8> {
    match next {
        AcceptingView::Decline(byte) => seq![byte],
        AcceptingView::Challenge(message) => backend_bytes(message),
        AcceptingView::Welcome(messages) => backend_stream(messages),
        AcceptingView::Refuse(Some(message), _) => backend_bytes(message),
        AcceptingView::Refuse(None, _) => seq![],
    }
}

/// What a client is given up for when logging it in comes to this.
pub open spec fn accepting_fault(next: AcceptingView) -> Option<Fault> {
    match next {
        AcceptingView::Refuse(_, fault) => Some(fault),
        _ => None,
    }
}

/// A login at the session's end once it is over: the bytes that were written,
/// what the client was given up for where it was, the session, and the bytes
/// that were left unread.
pub struct AcceptedView {
    pub written: Seq<u8>,
    pub refused: Option<Fault>,
    pub session: SessionView,
    pub rest: Seq<u8>,
}

/// What logging a client in comes to when `bytes` are all that it sends before
/// it closes.
#[verifier::opaque]
pub open spec fn accept_read(session: SessionView, bytes: Seq<u8>) -> AcceptedView
    decreases bytes.len(),
{
    match startup_read(bytes) {
        (Ok(message), rest) => {
            let (next, after) = startup_step(session, message);
            match next {
                AcceptingView::Decline(_) => {
                    proof {
                        lemma_opening_consumes(bytes);
                    }
                    let later = accept_read(after, rest);
                    AcceptedView { written: accepting_bytes(next) + later.written, ..later }
                },
                AcceptingView::Challenge(_) => {
                    let later = password_read(after, rest);
                    AcceptedView { written: accepting_bytes(next) + later.written, ..later }
                },
                _ => AcceptedView {
                    written: accepting_bytes(next),
                    refused: accepting_fault(next),
                    session: after,
                    rest,
                },
            }
        },
        (Err(fault), rest) => AcceptedView {
            written: seq![],
            refused: Some(fault),
            session,
            rest,
        },
    }
}

/// What the challenge comes to when `bytes` are all that the client sends
/// after it.
pub open spec fn password_read(session: SessionView, bytes: Seq<u8>) -> AcceptedView {
    match frontend_read(bytes) {
        (Ok(message), rest) => {
            let next = password_step(session, message);
            AcceptedView {
                written: accepting_bytes(next),
                refused: accepting_fault(next),
                session,
                rest,
            }
        },
        (Err(fault), rest) => AcceptedView {
            written: seq![],
            refused: Some(fault),
            session,
            rest,
        },
    }
}

/// A login goes on by what the client opens with.
pub proof fn lemma_accept_goes_on(
    session: SessionView,
    bytes: Seq<u8>,
    message: FrontendView,
    rest: Seq<u8>,
)
    requires
        startup_read(bytes) == (Ok::<Option<FrontendView>, Fault>(Some(message)), rest),
    ensures
        ({
            let (next, after) = startup_step(session, Some(message));
            let later = if next is Decline {
                accept_read(after, rest)
            } else {
                password_read(after, rest)
            };
            accept_read(session, bytes) == if next is Decline || next is Challenge {
                AcceptedView { written: accepting_bytes(next) + later.written, ..later }
            } else {
                AcceptedView {
                    written: accepting_bytes(next),
                    refused: accepting_fault(next),
                    session: after,
                    rest,
                }
            }
        }),
{
    reveal(accept_read);
}

/// A request for TLS is declined with an `N`, and the login goes on as if it
/// had not been made.
pub proof fn law_tls_is_declined(session: SessionView, more: Seq<u8>)
    ensures
        ({
            let later = accept_read(session, more);
            accept_read(session, frontend_bytes(FrontendView::SslRequest) + more) == (
            AcceptedView { written: seq!['N' as u8] + later.written, ..later })
        }),
{
    law_startup_reads_back(FrontendView::SslRequest, more);
    lemma_accept_goes_on(
        session,
        frontend_bytes(FrontendView::SslRequest) + more,
        FrontendView::SslRequest,
        more,
    );
}

/// Where a Stream that was inserted came from.
pub open spec fn inserted_origin(
    session: SessionView,
    table: Seq<char>,
    column: Seq<char>,
) -> Seq<char> {
    "postgresql://"@ + session.peer + "/"@ + session.database + "/"@ + table + "/"@ + column
}

/// How a query is answered, and what the client did by it: as its owner
/// `answered` it where that is said, a SELECT being one whoever answers it;
/// otherwise a SELECT with the table, an INSERT of one column as a Stream,
/// another INSERT with an error, and anything else with its own verb.
pub open spec fn answer_of(
    session: SessionView,
    sql: Seq<char>,
    answered: Option<AnswerView>,
) -> (AnswerView, EventView) {
    match answered {
        Some(answer) => (
            answer,
            if verb_of(sql) == "SELECT"@ {
                EventView::Selected(sql)
            } else {
                EventView::Executed(sql)
            },
        ),
        None => if verb_of(sql) == "SELECT"@ {
            (
                AnswerView::Rows { columns: session.columns, rows: session.rows },
                EventView::Selected(sql),
            )
        } else if verb_of(sql) == "INSERT"@ {
            match insert_of(sql) {
                Some((table, column, value)) => (
                    AnswerView::Complete("INSERT 0 1"@),
                    EventView::Inserted(
                        ArrivedView {
                            origin_uri: inserted_origin(session, table, column),
                            bytes: carried(value),
                        },
                    ),
                ),
                None => (
                    AnswerView::Error {
                        code: "42601"@,
                        message: "only INSERT INTO t (c) VALUES ('v') is served here"@,
                    },
                    EventView::Executed(sql),
                ),
            }
        } else {
            (AnswerView::Complete(verb_of(sql)), EventView::Executed(sql))
        },
    }
}

/// The messages that an answer is sent as.
pub open spec fn answer_messages(answer: AnswerView) -> Seq<BackendView> {
    match answer {
        AnswerView::Rows { columns, rows } => seq![BackendView::RowDescription(columns)]
            + rows.map_values(|row: Seq<Option<Seq<char>>>| BackendView::DataRow(row))
            + seq![BackendView::CommandComplete("SELECT "@ + decimal(rows.len()))],
        AnswerView::Complete(tag) => seq![BackendView::CommandComplete(tag)],
        AnswerView::Error { code, message } => seq![
            BackendView::ErrorResponse { severity: "ERROR"@, code, message },
        ],
    }
}

/// What `{:?}` writes for a message of a client that opens a connection.
pub open spec fn opening_debug(message: FrontendView) -> Seq<char> {
    match message {
        FrontendView::Startup { user, database } => "Startup { user: "@ + str_debug(user)
            + ", database: "@ + str_debug(database) + " }"@,
        _ => "SslRequest"@,
    }
}

/// What a message from a logged-in client comes to: a query is answered,
/// a password is one too many and nothing comes of it, and what opens a
/// connection is refused.
pub open spec fn turn_of(
    session: SessionView,
    message: Option<FrontendView>,
    answered: Option<AnswerView>,
) -> Result<TurnView, Fault> {
    match message {
        Some(FrontendView::Query(sql)) => {
            let (answer, event) = answer_of(session, sql, answered);
            Ok(
                TurnView::Reply {
                    messages: answer_messages(answer).push(
                        BackendView::ReadyForQuery('I' as u8),
                    ),
                    event,
                },
            )
        },
        Some(FrontendView::Terminate) | None => Ok(TurnView::Closed),
        Some(FrontendView::Password(_)) => Ok(TurnView::Ignore),
        Some(other) => Err(permanent(opening_debug(other) + " after the login"@)),
    }
}

/// What a turn comes to for an owner who waits for a value to be inserted:
/// everything else is answered on the way.
pub open spec fn taking_of(turn: TurnView) -> TakingView {
    match turn {
        TurnView::Reply { messages, event: EventView::Inserted(stream) } => TakingView::Taken {
            messages,
            stream,
        },
        TurnView::Reply { messages, .. } => TakingView::Wait(messages),
        TurnView::Ignore => TakingView::Wait(seq![]),
        TurnView::Closed => TakingView::Closed,
    }
}

/// The literal that a text opens with after any white space, and what
/// follows it.
pub open spec fn literal_of(text: Seq<char>) -> Option<(Seq<char>, Seq<char>)> {
    unquoted(trimmed(text), '\'')
}

/// The identifier that a text opens with after any white space, quoted or
/// bare, and what follows it.
pub open spec fn identifier_of(text: Seq<char>) -> Option<(Seq<char>, Seq<char>)> {
    let text = trimmed(text);
    if text.len() > 0 && text[0] == '"' {
        unquoted(text, '"')
    } else {
        let length = run(text, name_characters()) as int;
        if length > 0 {
            Some((text.take(length), text.skip(length)))
        } else {
            None
        }
    }
}

/// What the identifier that a text opens with is, where the text goes on with
/// the sign `after` it, and what follows that.
pub open spec fn identifier_before(text: Seq<char>, after: char) -> Option<
    (Seq<char>, Seq<char>),
> {
    match identifier_of(text) {
        Some((name, rest)) => match past_sign(rest, after) {
            Some(rest) => Some((name, rest)),
            None => None,
        },
        None => None,
    }
}

/// Whether nothing is left of a statement but white space and the semicolon
/// that may end it.
pub open spec fn ended(text: Seq<char>) -> bool {
    trimmed(text).len() == 0 || (past_sign(text, ';') matches Some(rest) && trimmed(rest).len()
        == 0)
}

/// What follows `INSERT INTO`.
pub open spec fn past_insert_into(text: Seq<char>) -> Option<Seq<char>> {
    match past_word(text, "INSERT"@) {
        Some(rest) => past_word(rest, "INTO"@),
        None => None,
    }
}

/// The literal of `VALUES (<literal>)`, which is all that is left of a
/// statement.
pub open spec fn values_of(text: Seq<char>) -> Option<Seq<char>> {
    match past_word(text, "VALUES"@) {
        Some(rest) => match past_sign(rest, '(') {
            Some(rest) => match literal_of(rest) {
                Some((value, rest)) => match past_sign(rest, ')') {
                    Some(rest) => if ended(rest) {
                        Some(value)
                    } else {
                        None
                    },
                    None => None,
                },
                None => None,
            },
            None => None,
        },
        None => None,
    }
}

/// The table, the column and the value of
/// `INSERT INTO <table> (<column>) VALUES (<literal>)`.
pub open spec fn insert_of(statement: Seq<char>) -> Option<(Seq<char>, Seq<char>, Seq<char>)> {
    match past_insert_into(statement) {
        Some(rest) => match identifier_before(rest, '(') {
            Some((table, rest)) => match identifier_before(rest, ')') {
                Some((column, rest)) => match values_of(rest) {
                    Some(value) => Some((table, column, value)),
                    None => None,
                },
                None => None,
            },
            None => None,
        },
        None => None,
    }
}

impl Session {
    /// A session for the client at `peer`, which is to be logged in: with
    /// `password`, by demanding it in the clear and checking; without, by
    /// trust. What the client opens with goes to [`Session::startup`].
    pub fn accept(peer: &str, password: Option<&str>) -> (session: Self)
        ensures
            session@ == fresh(peer@, password.deep_view()),
    {
        let password = match password {
            Some(password) => Some(password.to_string()),
            None => None,
        };
        let session = Session {
            peer: peer.to_string(),
            password,
            user: String::new(),
            database: String::new(),
            columns: Vec::new(),
            rows: Vec::new(),
        };
        assert(session.columns.deep_view() == Seq::<Seq<char>>::empty());
        assert(session.rows.deep_view() == Seq::<Seq<Option<Seq<char>>>>::empty());
        session
    }

    /// The startup message, a request for TLS declined on the way: what
    /// `message`, read off the opening connection, comes to. `None` is a
    /// client that closed.
    pub fn startup(&mut self, message: Option<Frontend>) -> (next: Accepting)
        ensures
            next@ == startup_step(old(self)@, message.deep_view()).0,
            final(self)@ == startup_step(old(self)@, message.deep_view()).1,
    {
        match message {
            Some(Frontend::SslRequest) => Accepting::Decline('N' as u8),
            Some(Frontend::Startup { user, database }) => {
                self.user = user;
                self.database = database;
                if self.password.is_some() {
                    Accepting::Challenge(Backend::Authentication(AUTH_CLEARTEXT))
                } else {
                    Accepting::Welcome(Self::welcome())
                }
            },
            _ => Accepting::Refuse(
                None,
                protocol_error("the client did not open with a startup message"),
            ),
        }
    }

    /// The answer to the challenge: what `message`, read off the challenged
    /// connection, comes to. `None` is a client that closed.
    pub fn authenticate(&self, message: Option<Frontend>) -> (next: Accepting)
        ensures
            next@ == password_step(self@, message.deep_view()),
    {
        let given = match message {
            Some(Frontend::Password(given)) => given,
            _ => {
                return Accepting::Refuse(
                    None,
                    protocol_error("the client did not answer with a password"),
                );
            },
        };
        if let Some(expected) = &self.password {
            if !same(given.as_str(), expected.as_str()) {
                let message = "password authentication failed for user \"".to_string().concat(
                    self.user.as_str(),
                ).concat("\"");
                let told = Backend::ErrorResponse {
                    severity: "FATAL".to_string(),
                    code: "28P01".to_string(),
                    message: message.clone(),
                };
                return Accepting::Refuse(Some(told), TransportError::permanent(message));
            }
        }
        Accepting::Welcome(Self::welcome())
    }

    /// What a client is told when it is logged in.
    fn welcome() -> (messages: Vec<Backend>)
        ensures
            messages.deep_view() == welcome(),
    {
        let messages = vec![
            Backend::Authentication(AUTH_OK),
            Backend::ParameterStatus {
                name: "server_version".to_string(),
                value: "16.0 (xmip)".to_string(),
            },
            Backend::BackendKeyData { process: 1, secret: 0 },
            Backend::ReadyForQuery('I' as u8),
        ];
        assert(messages.deep_view() == welcome());
        messages
    }

    /// The user the client logged in as.
    #[must_use]
    pub fn user(&self) -> (user: &str)
        ensures
            user@ == self@.user,
    {
        self.user.as_str()
    }

    /// The database the client asked for.
    #[must_use]
    pub fn database(&self) -> (database: &str)
        ensures
            database@ == self@.database,
    {
        self.database.as_str()
    }

    /// Answer any SELECT with these `columns` and `rows`.
    #[must_use]
    pub fn with_table(self, columns: &[&str], rows: &[&[Option<&str>]]) -> (session: Self)
        ensures
            session@ == (SessionView {
                columns: columns.deep_view(),
                rows: rows.deep_view(),
                ..self@
            }),
    {
        let mut names: Vec<String> = Vec::new();
        let mut at: usize = 0;
        while at < columns.len()
            invariant
                at <= columns@.len(),
                names.deep_view() == columns.deep_view().take(at as int),
            decreases columns@.len() - at,
        {
            let ghost before = names.deep_view();
            names.push(columns[at].to_string());
            assert(names.deep_view() == before.push(columns.deep_view()[at as int]));
            at = at + 1;
            assert(names.deep_view() == columns.deep_view().take(at as int));
        }
        assert(columns.deep_view().take(at as int) == columns.deep_view());
        let mut table: Vec<Vec<Option<String>>> = Vec::new();
        let mut at: usize = 0;
        while at < rows.len()
            invariant
                at <= rows@.len(),
                table.deep_view() == rows.deep_view().take(at as int),
            decreases rows@.len() - at,
        {
            let ghost before = table.deep_view();
            table.push(owned_row(rows[at]));
            assert(table.deep_view() == before.push(rows.deep_view()[at as int]));
            at = at + 1;
            assert(table.deep_view() == rows.deep_view().take(at as int));
        }
        assert(rows.deep_view().take(at as int) == rows.deep_view());
        Session { columns: names, rows: table, ..self }
    }

    /// What `message`, read off the connection of a logged-in client, comes
    /// to. `None` is a client that closed. Where it is a query and the
    /// session's owner has an answer to it, that is `answered`; what the
    /// owner declines falls to the table.
    ///
    /// # Errors
    /// Where the client sent what the simple flow does not.
    pub fn next_event(&self, message: Option<Frontend>, answered: Option<Answer>) -> (turn: Result<
        Turn,
        TransportError,
    >)
        ensures
            match turn_of(self@, message.deep_view(), answered.deep_view()) {
                Ok(t) => turn matches Ok(u) && u@ == t,
                Err(fault) => turn matches Err(e) && e@ == fault,
            },
    {
        match message {
            Some(Frontend::Query(sql)) => {
                let (answer, event) = self.answer(sql.as_str(), answered);
                let mut messages = write_answer(&answer);
                let ghost sent = messages.deep_view();
                messages.push(Backend::ReadyForQuery('I' as u8));
                assert(messages.deep_view() == sent.push(BackendView::ReadyForQuery('I' as u8)));
                Ok(Turn::Reply { messages, event })
            },
            Some(Frontend::Terminate) | None => Ok(Turn::Closed),
            Some(Frontend::Password(_)) => Ok(Turn::Ignore),
            Some(Frontend::SslRequest) => Err(
                TransportError::permanent("SslRequest".to_string().concat(" after the login")),
            ),
            Some(Frontend::Startup { user, database }) => Err(
                TransportError::permanent(
                    "Startup { user: ".to_string().concat(debug_str(user.as_str()).as_str()).concat(
                        ", database: ",
                    ).concat(debug_str(database.as_str()).as_str()).concat(" }").concat(
                        " after the login",
                    ),
                ),
            ),
        }
    }

    /// What `message` comes to for an owner who waits for the next value the
    /// client inserts. Everything else is answered on the way.
    ///
    /// # Errors
    /// Where the client sent what the simple flow does not.
    pub fn next_insert(&self, message: Option<Frontend>, answered: Option<Answer>) -> (taking:
        Result<Taking, TransportError>)
        ensures
            match turn_of(self@, message.deep_view(), answered.deep_view()) {
                Ok(t) => taking matches Ok(u) && u@ == taking_of(t),
                Err(fault) => taking matches Err(e) && e@ == fault,
            },
    {
        match self.next_event(message, answered)? {
            Turn::Reply { messages, event } => match event.inserted() {
                Some(stream) => Ok(Taking::Taken { messages, stream }),
                None => Ok(Taking::Wait(messages)),
            },
            Turn::Ignore => {
                let none: Vec<Backend> = Vec::new();
                assert(none.deep_view() == Seq::<BackendView>::empty());
                Ok(Taking::Wait(none))
            },
            Turn::Closed => Ok(Taking::Closed),
        }
    }

    /// How `sql` is answered, and what the client did by it.
    pub fn answer(&self, sql: &str, answered: Option<Answer>) -> (reply: (Answer, Event))
        ensures
            (reply.0@, reply.1@) == answer_of(self@, sql@, answered.deep_view()),
    {
        let verb = verb(sql);
        if let Some(answer) = answered {
            let event = if same(verb.as_str(), "SELECT") {
                Event::Selected(sql.to_string())
            } else {
                Event::Executed(sql.to_string())
            };
            return (answer, event);
        }
        if same(verb.as_str(), "SELECT") {
            (
                Answer::Rows { columns: self.columns.clone(), rows: self.rows.clone() },
                Event::Selected(sql.to_string()),
            )
        } else if same(verb.as_str(), "INSERT") {
            match parse_insert(sql) {
                Some((table, column, value)) => {
                    let origin = "postgresql://".to_string().concat(self.peer.as_str()).concat(
                        "/",
                    ).concat(self.database.as_str()).concat("/").concat(table.as_str()).concat(
                        "/",
                    ).concat(column.as_str());
                    (
                        Answer::Complete("INSERT 0 1".to_string()),
                        Event::Inserted(Arrived::new(origin, column_bytes(value))),
                    )
                },
                None => (
                    Answer::Error {
                        code: "42601".to_string(),
                        message: "only INSERT INTO t (c) VALUES ('v') is served here".to_string(),
                    },
                    Event::Executed(sql.to_string()),
                ),
            }
        } else {
            (Answer::Complete(verb), Event::Executed(sql.to_string()))
        }
    }
}

/// A row of its own.
fn owned_row(row: &[Option<&str>]) -> (owned: Vec<Option<String>>)
    ensures
        owned.deep_view() == row.deep_view(),
{
    let mut owned: Vec<Option<String>> = Vec::new();
    let mut at: usize = 0;
    while at < row.len()
        invariant
            at <= row@.len(),
            owned.deep_view() == row.deep_view().take(at as int),
        decreases row@.len() - at,
    {
        let ghost before = owned.deep_view();
        owned.push(
            match row[at] {
                Some(text) => Some(text.to_string()),
                None => None,
            },
        );
        assert(owned.deep_view() == before.push(row.deep_view()[at as int]));
        at = at + 1;
        assert(owned.deep_view() == row.deep_view().take(at as int));
    }
    assert(row.deep_view().take(at as int) == row.deep_view());
    owned
}

/// The messages that `answer` is sent as.
pub fn write_answer(answer: &Answer) -> (messages: Vec<Backend>)
    ensures
        messages.deep_view() == answer_messages(answer@),
{
    let mut messages: Vec<Backend> = Vec::new();
    match answer {
        Answer::Rows { columns, rows } => {
            messages.push(Backend::RowDescription(columns.clone()));
            let ghost described = seq![BackendView::RowDescription(columns.deep_view())];
            let ghost data = rows.deep_view().map_values(
                |row: Seq<Option<Seq<char>>>| BackendView::DataRow(row),
            );
            let mut at: usize = 0;
            while at < rows.len()
                invariant
                    at <= rows@.len(),
                    described == seq![BackendView::RowDescription(columns.deep_view())],
                    data == rows.deep_view().map_values(
                        |row: Seq<Option<Seq<char>>>| BackendView::DataRow(row),
                    ),
                    messages.deep_view() == described + data.take(at as int),
                decreases rows@.len() - at,
            {
                let ghost before = messages.deep_view();
                messages.push(Backend::DataRow(rows[at].clone()));
                assert(messages.deep_view() == before.push(data[at as int]));
                at = at + 1;
                assert(messages.deep_view() == described + data.take(at as int));
            }
            assert(data.take(at as int) == data);
            messages.push(
                Backend::CommandComplete(
                    "SELECT ".to_string().concat(number(rows.len() as u64).as_str()),
                ),
            );
        },
        Answer::Complete(tag) => {
            messages.push(Backend::CommandComplete(tag.clone()));
        },
        Answer::Error { code, message } => {
            messages.push(
                Backend::ErrorResponse {
                    severity: "ERROR".to_string(),
                    code: code.clone(),
                    message: message.clone(),
                },
            );
        },
    }
    assert(messages.deep_view() == answer_messages(answer@));
    messages
}

/// `INSERT INTO <table> (<column>) VALUES ('<literal>')` taken apart:
/// the table, the column and the literal with its quotes undoubled.
/// Identifiers may be quoted; anything else is `None`. White space may stand
/// between the parts, the words may be in any case, and a semicolon may end
/// it all.
#[must_use]
pub fn parse_insert(statement: &str) -> (parts: Option<(String, String, String)>)
    ensures
        match insert_of(statement@) {
            Some((table, column, value)) => parts matches Some(p) && p.0@ == table && p.1@ == column
                && p.2@ == value,
            None => parts is None,
        },
{
    let chars = characters(statement);
    let chars = chars.as_slice();
    assert(chars@.skip(0) == statement@);
    let at: usize = skip_word(chars, 0, "INSERT")?;
    let at: usize = skip_word(chars, at, "INTO")?;
    let (table, at) = identifier(chars, at)?;
    let at: usize = skip_sign(chars, at, '(')?;
    let (column, at) = identifier(chars, at)?;
    let at: usize = skip_sign(chars, at, ')')?;
    let at: usize = skip_word(chars, at, "VALUES")?;
    let at: usize = skip_sign(chars, at, '(')?;
    let (value, at) = literal(chars, at)?;
    let at: usize = skip_sign(chars, at, ')')?;
    let end: usize = match skip_sign(chars, at, ';') {
        Some(at) => skip_space(chars, at),
        None => skip_space(chars, at),
    };
    if end < chars.len() {
        return None;
    }
    Some((table, column, value))
}

/// One `'…'` literal at `at` with its quotes undoubled, and where what
/// follows it begins.
fn literal(chars: &[char], at: usize) -> (text: Option<(String, usize)>)
    requires
        at <= chars@.len(),
    ensures
        match literal_of(chars@.skip(at as int)) {
            Some((t, rest)) => text matches Some(u) && u.0@ == t && at <= u.1 <= chars@.len()
                && chars@.skip(u.1 as int) == rest,
            None => text is None,
        },
{
    let from: usize = skip_space(chars, at);
    unquote_prefix(chars, from, '\'')
}

/// One identifier at `at`, bare or double-quoted with `""` for a quote, and
/// where what follows it begins.
fn identifier(chars: &[char], at: usize) -> (name: Option<(String, usize)>)
    requires
        at <= chars@.len(),
    ensures
        match identifier_of(chars@.skip(at as int)) {
            Some((t, rest)) => name matches Some(u) && u.0@ == t && at <= u.1 <= chars@.len()
                && chars@.skip(u.1 as int) == rest,
            None => name is None,
        },
{
    let from: usize = skip_space(chars, at);
    if from < chars.len() && chars[from] == '"' {
        return unquote_prefix(chars, from, '"');
    }
    let to: usize = skip_name(chars, from);
    if to == from {
        return None;
    }
    proof {
        let text = chars@.skip(from as int);
        assert(text.take(to - from) == chars@.subrange(from as int, to as int));
        assert(text.skip(to - from) == chars@.skip(to as int));
    }
    Some((spelled(chars, from, to), to))
}

/// The words of an INSERT, letter by letter.
proof fn lemma_insert_words()
    ensures
        "INSERT INTO "@ == "INSERT"@ + (seq![' '] + ("INTO"@ + seq![' '])),
        ") VALUES ("@ == seq![')'] + (seq![' '] + ("VALUES"@ + seq![' ', '('])),
        " ("@ == seq![' ', '('],
        ")"@ == seq![')'],
        "INSERT"@.len() == 6,
        "INTO"@.len() == 4,
        "VALUES"@.len() == 6,
        forall|i: int| 0 <= i < 6 ==> 'A' <= #[trigger] "INSERT"@[i] <= 'Z',
        forall|i: int| 0 <= i < 4 ==> 'A' <= #[trigger] "INTO"@[i] <= 'Z',
        forall|i: int| 0 <= i < 6 ==> 'A' <= #[trigger] "VALUES"@[i] <= 'Z',
{
    reveal_strlit("INSERT INTO ");
    reveal_strlit(") VALUES (");
    reveal_strlit(" (");
    reveal_strlit(")");
    reveal_strlit("INSERT");
    reveal_strlit("INTO");
    reveal_strlit("VALUES");
}

/// Whether a text is a way to write the identifier `name`: quoted, or bare
/// where it is made of what a bare identifier is made of.
pub open spec fn spells(text: Seq<char>, name: Seq<char>) -> bool {
    ||| text == quoted(name, '"')
    ||| {
        &&& text == name
        &&& name.len() > 0
        &&& !white_space(name[0])
        &&& forall|i: int| 0 <= i < name.len() ==> name_characters()(#[trigger] name[i])
    }
}

/// An identifier is read however it is written.
proof fn lemma_identifier(text: Seq<char>, name: Seq<char>, rest: Seq<char>)
    requires
        spells(text, name),
        rest.len() > 0,
        rest[0] != '"',
        !name_characters()(rest[0]),
    ensures
        identifier_of(text + rest) == Some((name, rest)),
        identifier_of(seq![' '] + (text + rest)) == Some((name, rest)),
{
    let whole = text + rest;
    if text == quoted(name, '"') {
        assert(whole[0] == '"');
        law_quoted_unquotes(name, '"', rest);
    } else {
        assert(name_characters()(name[0]));
        assert(whole[0] == name[0]);
        lemma_run_whole(name, name_characters(), rest);
        assert(whole.take(name.len() as int) == name);
        assert(whole.skip(name.len() as int) == rest);
    }
    lemma_trimmed_solid(whole);
    lemma_trimmed_space(whole);
}

/// A sign is read where it comes, or after a space.
proof fn lemma_sign(sign: char, rest: Seq<char>)
    requires
        !white_space(sign),
    ensures
        past_sign(seq![sign] + rest, sign) == Some(rest),
        past_sign(seq![' ', sign] + rest, sign) == Some(rest),
{
    let text = seq![sign] + rest;
    lemma_trimmed_solid(text);
    lemma_trimmed_space(text);
    assert(text.skip(1) == rest);
    assert(seq![' ', sign] + rest == seq![' '] + text);
}

/// What an INSERT has after the bracket that closes its column.
spec fn values_text(value: Seq<char>) -> Seq<char> {
    seq![' '] + ("VALUES"@ + (seq![' ', '('] + (quoted(value, '\'') + seq![')'])))
}

/// What an INSERT has after the bracket that opens its column.
spec fn column_on(column: Seq<char>, value: Seq<char>) -> Seq<char> {
    column + (seq![')'] + values_text(value))
}

/// What an INSERT has after `INSERT INTO`.
spec fn table_on(table: Seq<char>, column: Seq<char>, value: Seq<char>) -> Seq<char> {
    seq![' '] + (table + (seq![' ', '('] + column_on(column, value)))
}

/// What an INSERT has after its verb.
spec fn into_on(table: Seq<char>, column: Seq<char>, value: Seq<char>) -> Seq<char> {
    seq![' '] + ("INTO"@ + table_on(table, column, value))
}

/// An INSERT is its parts, one behind another.
proof fn lemma_insert_parts(table: Seq<char>, column: Seq<char>, value: Seq<char>)
    ensures
        "INSERT INTO "@ + table + " ("@ + column + ") VALUES ("@ + quoted(value, '\'') + ")"@
            == "INSERT"@ + into_on(table, column, value),
{
    let literal = quoted(value, '\'');
    lemma_insert_words();
    assert(") VALUES ("@ + literal + ")"@ == seq![')'] + values_text(value));
    assert(" ("@ + column + (") VALUES ("@ + literal + ")"@) == seq![' ', '('] + column_on(
        column,
        value,
    ));
    assert("INSERT INTO "@ + table == "INSERT"@ + (seq![' '] + ("INTO"@ + (seq![' '] + table))));
    assert("INSERT INTO "@ + table + " ("@ + column + ") VALUES ("@ + literal + ")"@
        == "INSERT INTO "@ + table + (" ("@ + column + (") VALUES ("@ + literal + ")"@)));
}

/// The values that end an INSERT are read.
proof fn lemma_values(value: Seq<char>)
    ensures
        values_of(values_text(value)) == Some(value),
{
    let none = Seq::<char>::empty();
    let close = seq![')'];
    let literal = quoted(value, '\'') + close;
    let open = seq![' ', '('] + literal;
    lemma_insert_words();
    lemma_past_word("VALUES"@, open);
    lemma_sign('(', literal);
    lemma_trimmed_solid(literal);
    law_quoted_unquotes(value, '\'', close);
    assert(close + none == close);
    lemma_sign(')', none);
    lemma_trimmed_solid(none);
}

/// What follows the verb of an INSERT names the table.
proof fn lemma_into_is_read(
    table_text: Seq<char>,
    table: Seq<char>,
    column_text: Seq<char>,
    value: Seq<char>,
)
    requires
        spells(table_text, table),
    ensures
        past_insert_into("INSERT"@ + into_on(table_text, column_text, value)) == Some(
            table_on(table_text, column_text, value),
        ),
        identifier_before(table_on(table_text, column_text, value), '(') == Some(
            (table, column_on(column_text, value)),
        ),
{
    let columns = column_on(column_text, value);
    lemma_insert_words();
    lemma_past_word("INSERT"@, into_on(table_text, column_text, value));
    lemma_past_word("INTO"@, table_on(table_text, column_text, value));
    lemma_identifier(table_text, table, seq![' ', '('] + columns);
    lemma_sign('(', columns);
}

/// What follows the bracket that opens the column of an INSERT names it.
proof fn lemma_column_is_read(column_text: Seq<char>, column: Seq<char>, value: Seq<char>)
    requires
        spells(column_text, column),
    ensures
        identifier_before(column_on(column_text, value), ')') == Some(
            (column, values_text(value)),
        ),
{
    lemma_identifier(column_text, column, seq![')'] + values_text(value));
    lemma_sign(')', values_text(value));
}

/// The verb of an INSERT is `INSERT`.
proof fn lemma_insert_verb(rest: Seq<char>)
    requires
        rest.len() > 0,
        rest[0] == ' ',
    ensures
        verb_of("INSERT"@ + rest) == "INSERT"@,
{
    let statement = "INSERT"@ + rest;
    lemma_insert_words();
    assert(statement[0] == "INSERT"@[0]);
    lemma_trimmed_solid(statement);
    lemma_run_whole("INSERT"@, word_characters(), rest);
    assert(statement.take(6) == "INSERT"@);
    assert(upper("INSERT"@) == "INSERT"@);
}

/// An INSERT of one column is taken apart into the table, the column and the
/// value that it was written with, however its identifiers are written and
/// whatever the value holds; and its verb is `INSERT`.
pub proof fn law_insert_is_taken_apart(
    table_text: Seq<char>,
    table: Seq<char>,
    column_text: Seq<char>,
    column: Seq<char>,
    value: Seq<char>,
)
    requires
        spells(table_text, table),
        spells(column_text, column),
    ensures
        ({
            let statement = "INSERT INTO "@ + table_text + " ("@ + column_text + ") VALUES ("@
                + quoted(value, '\'') + ")"@;
            &&& insert_of(statement) == Some((table, column, value))
            &&& verb_of(statement) == "INSERT"@
        }),
{
    lemma_insert_parts(table_text, column_text, value);
    lemma_into_is_read(table_text, table, column_text, value);
    lemma_column_is_read(column_text, column, value);
    lemma_values(value);
    lemma_insert_verb(into_on(table_text, column_text, value));
}

/// Whether a text is white space, an identifier that is called `name`, and
/// `rest`, with which the identifier does not go on: a quoted one, every quote
/// in it doubled, or a bare one.
pub open spec fn identifier_then(text: Seq<char>, name: Seq<char>, rest: Seq<char>) -> bool {
    exists|gap: Seq<char>, spelled: Seq<char>|
        blank(gap) && text == #[trigger] (gap + (spelled + rest)) && spells(spelled, name) && (
        rest.len() == 0 || (if spelled == quoted(name, '"') {
            rest[0] != '"'
        } else {
            !name_characters()(rest[0])
        }))
}

/// A bare name is no quoted one.
proof fn lemma_bare_is_not_quoted(name: Seq<char>)
    requires
        name.len() > 0,
        name_characters()(name[0]),
    ensures
        name[0] != '"',
        name != quoted(name, '"'),
{
    law_what_a_bare_name_is_made_of(name[0]);
    assert(quoted(name, '"')[0] == '"');
}

/// An identifier is read exactly where one comes next after any white space,
/// and what is left is what follows it.
pub proof fn law_an_identifier_is_read_where_it_comes(
    text: Seq<char>,
    name: Seq<char>,
    rest: Seq<char>,
)
    ensures
        identifier_of(text) == Some((name, rest)) <==> identifier_then(text, name, rest),
{
    if identifier_then(text, name, rest) {
        let (gap, spelled) = choose|gap: Seq<char>, spelled: Seq<char>|
            blank(gap) && text == #[trigger] (gap + (spelled + rest)) && spells(spelled, name) && (
            rest.len() == 0 || (if spelled == quoted(name, '"') {
                rest[0] != '"'
            } else {
                !name_characters()(rest[0])
            }));
        let behind = spelled + rest;
        lemma_trimmed_blank(gap, behind);
        if spelled == quoted(name, '"') {
            assert(behind[0] == '"');
            lemma_trimmed_solid(behind);
            law_quoted_unquotes(name, '"', rest);
        } else {
            assert(name_characters()(name[0]));
            assert(behind[0] == name[0]);
            lemma_bare_is_not_quoted(name);
            lemma_trimmed_solid(behind);
            lemma_run_whole(name, name_characters(), rest);
            assert(behind.take(name.len() as int) == name);
            assert(behind.skip(name.len() as int) == rest);
        }
    }
    if identifier_of(text) == Some((name, rest)) {
        let left = trimmed(text);
        law_trimming_takes_white_space_off(text);
        let gap = choose|gap: Seq<char>| blank(gap) && text == #[trigger] (gap + left);
        if left.len() > 0 && left[0] == '"' {
            law_unquoted_was_quoted(left, '"');
            assert(text == gap + (quoted(name, '"') + rest));
        } else {
            let length = run(left, name_characters()) as int;
            lemma_run_is_such(left, name_characters());
            assert(left == name + rest);
            assert forall|i: int| 0 <= i < name.len() implies name_characters()(
                #[trigger] name[i],
            ) by {
                assert(name[i] == left[i]);
            }
            assert(name[0] == left[0]);
            lemma_bare_is_not_quoted(name);
            if rest.len() > 0 {
                assert(rest[0] == left[length]);
            }
            assert(text == gap + (name + rest));
        }
    }
}

/// Whether a text is white space, a literal of `value`, every quote in it
/// doubled, and `rest`, with which the literal does not go on.
pub open spec fn literal_then(text: Seq<char>, value: Seq<char>, rest: Seq<char>) -> bool {
    exists|gap: Seq<char>|
        blank(gap) && text == #[trigger] (gap + (quoted(value, '\'') + rest)) && (rest.len() == 0
            || rest[0] != '\'')
}

/// A literal is read exactly where one comes next after any white space, and
/// what is left is what follows it.
pub proof fn law_a_literal_is_read_where_it_comes(
    text: Seq<char>,
    value: Seq<char>,
    rest: Seq<char>,
)
    ensures
        literal_of(text) == Some((value, rest)) <==> literal_then(text, value, rest),
{
    let behind = quoted(value, '\'') + rest;
    if literal_then(text, value, rest) {
        let gap = choose|gap: Seq<char>|
            blank(gap) && text == #[trigger] (gap + behind) && (rest.len() == 0 || rest[0] != '\'');
        lemma_trimmed_blank(gap, behind);
        assert(behind[0] == '\'');
        lemma_trimmed_solid(behind);
        law_quoted_unquotes(value, '\'', rest);
    }
    if literal_of(text) == Some((value, rest)) {
        let left = trimmed(text);
        law_trimming_takes_white_space_off(text);
        let gap = choose|gap: Seq<char>| blank(gap) && text == #[trigger] (gap + left);
        law_unquoted_was_quoted(left, '\'');
        assert(text == gap + behind);
    }
}

/// Whether a text is white space, or a semicolon with white space on either
/// side.
pub open spec fn nothing_left(text: Seq<char>) -> bool {
    blank(text) || exists|rest: Seq<char>| blank(rest) && #[trigger] sign_then(text, ';', rest)
}

/// What is blank trims to nothing, and nothing else does.
proof fn lemma_blank_trims_to_nothing(text: Seq<char>)
    ensures
        blank(text) <==> trimmed(text).len() == 0,
{
    let none = Seq::<char>::empty();
    if blank(text) {
        lemma_trimmed_blank(text, none);
        assert(text + none == text);
        lemma_trimmed_solid(none);
    }
    if trimmed(text).len() == 0 {
        law_trimming_takes_white_space_off(text);
        let left = trimmed(text);
        let gap = choose|gap: Seq<char>| blank(gap) && text == #[trigger] (gap + left);
        assert(text == gap);
    }
}

/// A statement ends exactly where nothing is left of it but white space and
/// the one semicolon that may end it.
pub proof fn law_a_statement_ends_where_nothing_is_left(text: Seq<char>)
    ensures
        ended(text) <==> nothing_left(text),
{
    lemma_blank_trims_to_nothing(text);
    if let Some(rest) = past_sign(text, ';') {
        law_a_sign_is_read_where_it_comes(text, ';', rest);
        lemma_blank_trims_to_nothing(rest);
    }
    if nothing_left(text) && !blank(text) {
        let rest = choose|rest: Seq<char>| blank(rest) && #[trigger] sign_then(text, ';', rest);
        law_a_sign_is_read_where_it_comes(text, ';', rest);
        lemma_blank_trims_to_nothing(rest);
    }
}

/// Whether a statement is `INSERT INTO <table> (<column>) VALUES (<value>)`,
/// read part by part, `left` being what is left after each.
pub open spec fn insert_part_by_part(
    statement: Seq<char>,
    table: Seq<char>,
    column: Seq<char>,
    value: Seq<char>,
    left: Seq<Seq<char>>,
) -> bool {
    &&& left.len() == 10
    &&& word_then(statement, "INSERT"@, left[0])
    &&& word_then(left[0], "INTO"@, left[1])
    &&& identifier_then(left[1], table, left[2])
    &&& sign_then(left[2], '(', left[3])
    &&& identifier_then(left[3], column, left[4])
    &&& sign_then(left[4], ')', left[5])
    &&& word_then(left[5], "VALUES"@, left[6])
    &&& sign_then(left[6], '(', left[7])
    &&& literal_then(left[7], value, left[8])
    &&& sign_then(left[8], ')', left[9])
    &&& nothing_left(left[9])
}

/// Whether a statement inserts one value into one column: the words in any
/// case, white space wherever it may stand, and nothing else.
pub open spec fn inserts(
    statement: Seq<char>,
    table: Seq<char>,
    column: Seq<char>,
    value: Seq<char>,
) -> bool {
    exists|left: Seq<Seq<char>>| insert_part_by_part(statement, table, column, value, left)
}

/// A statement is taken apart exactly where it inserts one value into one
/// column, and into the table, the column and the value that it has.
pub proof fn law_just_an_insert_of_one_column_is_taken_apart(
    statement: Seq<char>,
    table: Seq<char>,
    column: Seq<char>,
    value: Seq<char>,
)
    ensures
        insert_of(statement) == Some((table, column, value)) <==> inserts(
            statement,
            table,
            column,
            value,
        ),
{
    lemma_insert_words();
    if inserts(statement, table, column, value) {
        let left = choose|left: Seq<Seq<char>>|
            insert_part_by_part(statement, table, column, value, left);
        law_a_word_is_read_where_it_comes(statement, "INSERT"@, left[0]);
        law_a_word_is_read_where_it_comes(left[0], "INTO"@, left[1]);
        law_an_identifier_is_read_where_it_comes(left[1], table, left[2]);
        law_a_sign_is_read_where_it_comes(left[2], '(', left[3]);
        law_an_identifier_is_read_where_it_comes(left[3], column, left[4]);
        law_a_sign_is_read_where_it_comes(left[4], ')', left[5]);
        law_a_word_is_read_where_it_comes(left[5], "VALUES"@, left[6]);
        law_a_sign_is_read_where_it_comes(left[6], '(', left[7]);
        law_a_literal_is_read_where_it_comes(left[7], value, left[8]);
        law_a_sign_is_read_where_it_comes(left[8], ')', left[9]);
        law_a_statement_ends_where_nothing_is_left(left[9]);
    }
    if insert_of(statement) == Some((table, column, value)) {
        lemma_taken_apart_part_by_part(statement, table, column, value);
    }
}

/// What is taken apart was an INSERT, part by part.
proof fn lemma_taken_apart_part_by_part(
    statement: Seq<char>,
    table: Seq<char>,
    column: Seq<char>,
    value: Seq<char>,
)
    requires
        insert_of(statement) == Some((table, column, value)),
    ensures
        inserts(statement, table, column, value),
{
    lemma_insert_words();
    let l0 = past_word(statement, "INSERT"@)->0;
    let l1 = past_word(l0, "INTO"@)->0;
    let l2 = (identifier_of(l1)->0).1;
    let l3 = past_sign(l2, '(')->0;
    let l4 = (identifier_of(l3)->0).1;
    let l5 = past_sign(l4, ')')->0;
    let l6 = past_word(l5, "VALUES"@)->0;
    let l7 = past_sign(l6, '(')->0;
    let l8 = (literal_of(l7)->0).1;
    let l9 = past_sign(l8, ')')->0;
    law_a_word_is_read_where_it_comes(statement, "INSERT"@, l0);
    law_a_word_is_read_where_it_comes(l0, "INTO"@, l1);
    law_an_identifier_is_read_where_it_comes(l1, table, l2);
    law_a_sign_is_read_where_it_comes(l2, '(', l3);
    law_an_identifier_is_read_where_it_comes(l3, column, l4);
    law_a_sign_is_read_where_it_comes(l4, ')', l5);
    law_a_word_is_read_where_it_comes(l5, "VALUES"@, l6);
    law_a_sign_is_read_where_it_comes(l6, '(', l7);
    law_a_literal_is_read_where_it_comes(l7, value, l8);
    law_a_sign_is_read_where_it_comes(l8, ')', l9);
    law_a_statement_ends_where_nothing_is_left(l9);
    assert(insert_part_by_part(
        statement,
        table,
        column,
        value,
        seq![l0, l1, l2, l3, l4, l5, l6, l7, l8, l9],
    ));
}

/// Whether messages are rows as the protocol has them: the columns, each row
/// in its order, how many there were, and that the server is ready again.
pub open spec fn tells_rows(
    messages: Seq<BackendView>,
    columns: Seq<Seq<char>>,
    rows: Seq<Seq<Option<Seq<char>>>>,
) -> bool {
    &&& messages.len() == rows.len() + 3
    &&& messages[0] == BackendView::RowDescription(columns)
    &&& forall|i: int|
        0 <= i < rows.len() ==> messages[i + 1] == BackendView::DataRow(#[trigger] rows[i])
    &&& messages[rows.len() as int + 1] == BackendView::CommandComplete(
        "SELECT "@ + decimal(rows.len()),
    )
    &&& messages[rows.len() as int + 2] == BackendView::ReadyForQuery('I' as u8)
}

/// Whether messages are an answer as the protocol has it: its rows, its tag or
/// its error, and that the server is ready again.
pub open spec fn tells(messages: Seq<BackendView>, answer: AnswerView) -> bool {
    let ready = BackendView::ReadyForQuery('I' as u8);
    match answer {
        AnswerView::Rows { columns, rows } => tells_rows(messages, columns, rows),
        AnswerView::Complete(tag) => messages == seq![BackendView::CommandComplete(tag), ready],
        AnswerView::Error { code, message } => messages == seq![
            BackendView::ErrorResponse { severity: "ERROR"@, code, message },
            ready,
        ],
    }
}

/// An answer and that the server is ready again tell just that answer.
proof fn lemma_messages_tell_their_answer(answer: AnswerView)
    ensures
        tells(answer_messages(answer).push(BackendView::ReadyForQuery('I' as u8)), answer),
{
    let ready = BackendView::ReadyForQuery('I' as u8);
    let messages = answer_messages(answer).push(ready);
    match answer {
        AnswerView::Rows { columns, rows } => {
            assert forall|i: int| 0 <= i < rows.len() implies messages[i + 1]
                == BackendView::DataRow(#[trigger] rows[i]) by {}
        },
        AnswerView::Complete(tag) => {
            assert(messages == seq![BackendView::CommandComplete(tag), ready]);
        },
        AnswerView::Error { code, message } => {
            assert(messages == seq![
                BackendView::ErrorResponse { severity: "ERROR"@, code, message },
                ready,
            ]);
        },
    }
}

/// Where the owner has an answer, the client is sent that answer, whatever it
/// asked and whatever the table holds; and it is reported what the client ran,
/// a SELECT as one and anything else as something else.
pub proof fn law_the_owners_answer_is_what_is_sent(
    session: SessionView,
    sql: Seq<char>,
    answer: AnswerView,
)
    ensures
        turn_of(session, Some(FrontendView::Query(sql)), Some(answer)) matches Ok(
            TurnView::Reply { messages, event },
        ) && tells(messages, answer) && event == (if verb_of(sql) == "SELECT"@ {
            EventView::Selected(sql)
        } else {
            EventView::Executed(sql)
        }),
{
    lemma_messages_tell_their_answer(answer);
}

/// Any SELECT that the owner leaves alone is answered with the table: its
/// columns, and every row of it in its order.
pub proof fn law_a_select_is_answered_with_the_table(session: SessionView, sql: Seq<char>)
    requires
        verb_of(sql) == "SELECT"@,
    ensures
        turn_of(session, Some(FrontendView::Query(sql)), None) matches Ok(
            TurnView::Reply { messages, event },
        ) && tells_rows(messages, session.columns, session.rows) && event == EventView::Selected(
            sql,
        ),
{
    lemma_messages_tell_their_answer(
        AnswerView::Rows { columns: session.columns, rows: session.rows },
    );
}

/// The verb of what inserts is `INSERT`.
proof fn lemma_what_inserts_is_an_insert(
    statement: Seq<char>,
    table: Seq<char>,
    column: Seq<char>,
    value: Seq<char>,
)
    requires
        inserts(statement, table, column, value),
    ensures
        verb_of(statement) == "INSERT"@,
{
    lemma_insert_words();
    let left = choose|left: Seq<Seq<char>>|
        insert_part_by_part(statement, table, column, value, left);
    let rest = left[0];
    let (gap, spelled) = choose|gap: Seq<char>, spelled: Seq<char>|
        blank(gap) && upper(spelled) == "INSERT"@ && statement == #[trigger] (gap + (spelled
            + rest)) && (rest.len() == 0 || !name_characters()(rest[0]));
    assert forall|i: int| 0 <= i < spelled.len() implies ('a' <= #[trigger] spelled[i] <= 'z' || 'A'
        <= spelled[i] <= 'Z') by {
        assert(upper(spelled)[i] == "INSERT"@[i]);
        lemma_upper_is_a_letter(spelled[i]);
    }
    if rest.len() > 0 {
        law_what_a_bare_name_is_made_of(rest[0]);
        lemma_no_name_no_word(rest[0]);
    }
    law_the_verb_is_the_first_word(gap, spelled, rest);
    assert(verb_of(statement) == upper(spelled));
}

/// What is a letter in upper case is a letter.
proof fn lemma_upper_is_a_letter(c: char)
    requires
        'A' <= ascii_upper(c) <= 'Z',
    ensures
        'a' <= c <= 'z' || 'A' <= c <= 'Z',
{
}

/// What a name is not made of, a verb is not made of either.
proof fn lemma_no_name_no_word(c: char)
    requires
        !name_characters()(c),
    ensures
        !('a' <= c <= 'z' || 'A' <= c <= 'Z' || '0' <= c <= '9' || c == '_'),
{
}

/// An INSERT of one value that the owner leaves alone is recorded as a Stream:
/// the bytes that the value carries, from the peer, the database that the
/// client opened, the table and the column; and the client is told that one
/// row went in.
pub proof fn law_an_insert_is_recorded(
    session: SessionView,
    sql: Seq<char>,
    table: Seq<char>,
    column: Seq<char>,
    value: Seq<char>,
)
    requires
        inserts(sql, table, column, value),
    ensures
        turn_of(session, Some(FrontendView::Query(sql)), None) == Ok::<TurnView, Fault>(
            TurnView::Reply {
                messages: seq![
                    BackendView::CommandComplete("INSERT 0 1"@),
                    BackendView::ReadyForQuery('I' as u8),
                ],
                event: EventView::Inserted(
                    ArrivedView {
                        origin_uri: "postgresql://"@ + session.peer + "/"@ + session.database + "/"@
                            + table + "/"@ + column,
                        bytes: carried(value),
                    },
                ),
            },
        ),
{
    law_just_an_insert_of_one_column_is_taken_apart(sql, table, column, value);
    lemma_what_inserts_is_an_insert(sql, table, column, value);
    lemma_messages_tell_their_answer(AnswerView::Complete("INSERT 0 1"@));
    reveal_strlit("SELECT");
    reveal_strlit("INSERT");
    assert("SELECT"@[0] != "INSERT"@[0]);
}

/// Any other INSERT that the owner leaves alone is refused with a syntax
/// error, and is not recorded.
pub proof fn law_another_insert_is_a_syntax_error(session: SessionView, sql: Seq<char>)
    requires
        verb_of(sql) == "INSERT"@,
        forall|table: Seq<char>, column: Seq<char>, value: Seq<char>|
            !inserts(sql, table, column, value),
    ensures
        turn_of(session, Some(FrontendView::Query(sql)), None) matches Ok(
            TurnView::Reply { messages, event },
        ) && event == EventView::Executed(sql) && messages.len() == 2 && messages[1]
            == BackendView::ReadyForQuery('I' as u8) && messages[0]
            == (BackendView::ErrorResponse {
            severity: "ERROR"@,
            code: "42601"@,
            message: "only INSERT INTO t (c) VALUES ('v') is served here"@,
        }),
{
    if let Some((table, column, value)) = insert_of(sql) {
        law_just_an_insert_of_one_column_is_taken_apart(sql, table, column, value);
    }
    reveal_strlit("SELECT");
    reveal_strlit("INSERT");
    assert("SELECT"@[0] != "INSERT"@[0]);
}

/// Anything else that the owner leaves alone is completed with its own verb.
pub proof fn law_anything_else_is_completed_with_its_verb(session: SessionView, sql: Seq<char>)
    requires
        verb_of(sql) != "SELECT"@,
        verb_of(sql) != "INSERT"@,
    ensures
        turn_of(session, Some(FrontendView::Query(sql)), None) == Ok::<TurnView, Fault>(
            TurnView::Reply {
                messages: seq![
                    BackendView::CommandComplete(verb_of(sql)),
                    BackendView::ReadyForQuery('I' as u8),
                ],
                event: EventView::Executed(sql),
            },
        ),
{
    lemma_messages_tell_their_answer(AnswerView::Complete(verb_of(sql)));
}

/// A client that closes or says goodbye is done; a password after the login is
/// passed over; and what opens a connection is refused for good, whatever the
/// owner would answer.
pub proof fn law_a_turn_without_a_query(
    session: SessionView,
    text: Seq<char>,
    other: Seq<char>,
    answered: Option<AnswerView>,
)
    ensures
        turn_of(session, None, answered) == Ok::<TurnView, Fault>(TurnView::Closed),
        turn_of(session, Some(FrontendView::Terminate), answered) == Ok::<TurnView, Fault>(
            TurnView::Closed,
        ),
        turn_of(session, Some(FrontendView::Password(text)), answered) == Ok::<TurnView, Fault>(
            TurnView::Ignore,
        ),
        turn_of(session, Some(FrontendView::SslRequest), answered) == Err::<TurnView, Fault>(
            Fault { message: "SslRequest"@ + " after the login"@, retryable: false },
        ),
        turn_of(
            session,
            Some(FrontendView::Startup { user: text, database: other }),
            answered,
        ) == Err::<TurnView, Fault>(
            Fault {
                message: "Startup { user: "@ + str_debug(text) + ", database: "@ + str_debug(other)
                    + " }"@ + " after the login"@,
                retryable: false,
            },
        ),
{
}

/// Whoever waits for an insert is handed its Stream and what to answer; what
/// else the client ran is answered just as well, and waited past.
pub proof fn law_everything_else_is_answered_on_the_way(
    messages: Seq<BackendView>,
    stream: ArrivedView,
    sql: Seq<char>,
)
    ensures
        taking_of(TurnView::Reply { messages, event: EventView::Inserted(stream) })
            == (TakingView::Taken { messages, stream }),
        taking_of(TurnView::Reply { messages, event: EventView::Selected(sql) })
            == TakingView::Wait(messages),
        taking_of(TurnView::Reply { messages, event: EventView::Executed(sql) })
            == TakingView::Wait(messages),
        taking_of(TurnView::Ignore) == TakingView::Wait(seq![]),
        taking_of(TurnView::Closed) == TakingView::Closed,
{
}

/// A startup gives the session its user and its database and changes nothing
/// else of it; it is challenged for a password in the clear exactly where one
/// is demanded. A request for TLS is declined and changes nothing. Anything
/// else, and a client that closes, is given up for good and told nothing.
pub proof fn law_what_opens_a_session(
    session: SessionView,
    user: Seq<char>,
    database: Seq<char>,
    message: Option<FrontendView>,
)
    ensures
        ({
            let (next, after) = startup_step(
                session,
                Some(FrontendView::Startup { user, database }),
            );
            &&& after.user == user
            &&& after.database == database
            &&& after.peer == session.peer
            &&& after.password == session.password
            &&& after.columns == session.columns
            &&& after.rows == session.rows
            &&& session.password is Some ==> next == AcceptingView::Challenge(
                BackendView::Authentication(3),
            )
            &&& session.password is None ==> next == AcceptingView::Welcome(welcome())
        }),
        startup_step(session, Some(FrontendView::SslRequest)) == (
            AcceptingView::Decline(0x4e),
            session,
        ),
        !(message matches Some(FrontendView::Startup { .. })) && message != Some(
            FrontendView::SslRequest,
        ) ==> startup_step(session, message) == (
            AcceptingView::Refuse(
                None,
                Fault {
                    message: "the client did not open with a startup message"@,
                    retryable: false,
                },
            ),
            session,
        ),
{
}

/// A password lets a client in exactly where it is the one that is demanded;
/// any other is told to the client as `28P01`, naming its user, and gives it
/// up for good; and so does whatever is no password, which is told nothing.
pub proof fn law_a_password_is_let_in_or_refused(
    session: SessionView,
    given: Seq<char>,
    message: Option<FrontendView>,
)
    requires
        session.password is Some,
    ensures
        ({
            let judged = password_step(session, Some(FrontendView::Password(given)));
            let words = "password authentication failed for user \""@ + session.user + "\""@;
            &&& given == session.password->0 ==> judged == AcceptingView::Welcome(welcome())
            &&& given != session.password->0 ==> judged == AcceptingView::Refuse(
                Some(
                    BackendView::ErrorResponse {
                        severity: "FATAL"@,
                        code: "28P01"@,
                        message: words,
                    },
                ),
                Fault { message: words, retryable: false },
            )
        }),
        !(message matches Some(FrontendView::Password(_))) ==> password_step(session, message)
            == AcceptingView::Refuse(
            None,
            Fault { message: "the client did not answer with a password"@, retryable: false },
        ),
{
}

/// A session that nobody has opened knows its peer and the password it
/// demands, and has nobody's user or database and an empty table.
pub proof fn law_a_fresh_session_is_empty(peer: Seq<char>, password: Option<Seq<char>>)
    ensures
        fresh(peer, password).peer == peer,
        fresh(peer, password).password == password,
        fresh(peer, password).user.len() == 0,
        fresh(peer, password).database.len() == 0,
        fresh(peer, password).columns.len() == 0,
        fresh(peer, password).rows.len() == 0,
{
}

/// Who is welcomed is told that the login is done, which version this is, a
/// key, and last of all that it may ask.
pub proof fn law_the_welcome_ends_with_ready()
    ensures
        welcome().len() == 4,
        welcome()[0] == BackendView::Authentication(0),
        welcome()[1] == (BackendView::ParameterStatus {
            name: "server_version"@,
            value: "16.0 (xmip)"@,
        }),
        welcome()[2] == (BackendView::BackendKeyData { process: 1, secret: 0 }),
        welcome()[3] == BackendView::ReadyForQuery(0x49),
{
}

} // verus!
