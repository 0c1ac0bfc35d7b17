//! The transport as it is configured: where the server is, who logs in to
//! what, what a receive asks and what a send inserts.

use std::time::Duration;

use vstd::prelude::*;
use vstd::utf8::{decode_utf8, encode_utf8, valid_utf8};

use crate::arrived::{Arrived, ArrivedView};
use crate::backend::{backend_sendable, backend_stream, BackendView};
use crate::bytea::{
    carried, carrying, column_bytes, hex_literal, hex_named, holds_text, in_hex_form, is_text,
    law_a_column_carries_its_stream, law_a_column_carries_its_text_or_the_bytes_it_names,
    law_text_is_carried_as_it_is, law_what_carries_has_no_nul,
    law_what_is_not_text_is_carried_in_hex, looks_like_hex,
};
use crate::client::{
    just_asked, law_query_reads_just_its_answer, query_read, query_rest, quote_identifier,
    quote_literal, Client, ClientView, ProgressView, QueryResult, QueryResultView,
};
use crate::error::{permanent, protocol_error, Fault, TransportError};
use crate::frontend::{
    frontend_body, frontend_bytes, frontend_read, frontend_sendable, law_frontend_reads_back,
    Frontend, FrontendView,
};
use crate::session::{
    answer_messages, fresh, inserted_origin, law_insert_is_taken_apart, turn_of, AnswerView,
    EventView, Session, SessionView, TurnView,
};
use crate::sql::{inserting, lemma_inserting_has_no_nul, quoted, verb_of};
use crate::text::{
    characters, debug_str, decimal, lemma_utf8_length, number, spelled, str_debug,
};
use crate::wire::MAX_MESSAGE;

verus! {

/// What a Receive Location runs unless told otherwise.
pub const DEFAULT_QUERY: &'static str = "SELECT id, payload FROM inbox ORDER BY id";

/// What the loopback pair agrees on: one user logged in by trust to one
/// database, one table and column the payload is inserted into.
const LOOPBACK_SERVER: &'static str = "127.0.0.1:0";

const LOOPBACK_USER: &'static str = "probe";

const LOOPBACK_DATABASE: &'static str = "probe";

const LOOPBACK_TARGET: &'static str = "probe/payload";

/// Where and as whom the transport speaks, and what it asks.
#[derive(Clone)]
pub struct PostgresTransport {
    server: String,
    user: String,
    database: String,
    password: Option<String>,
    query: String,
    timeout: Option<Duration>,
}

/// Where and as whom the transport speaks, and what it asks, the strings as
/// their characters.
pub struct TransportView {
    pub server: Seq<char>,
    pub user: Seq<char>,
    pub database: Seq<char>,
    pub password: Option<Seq<char>>,
    pub query: Seq<char>,
    pub timeout: Option<Duration>,
}

impl View for PostgresTransport {
    type V = TransportView;

    closed spec fn view(&self) -> TransportView {
        TransportView {
            server: self.server@,
            user: self.user@,
            database: self.database@,
            password: self.password.deep_view(),
            query: self.query@,
            timeout: self.timeout,
        }
    }
}

/// The column of the table that a send inserts into, and where that is.
pub struct Destination {
    pub server: String,
    pub database: String,
    pub table: String,
    pub column: String,
}

/// The column of the table that a send inserts into, and where that is, the
/// strings as their characters.
pub struct DestinationView {
    pub server: Seq<char>,
    pub database: Seq<char>,
    pub table: Seq<char>,
    pub column: Seq<char>,
}

impl View for Destination {
    type V = DestinationView;

    open spec fn view(&self) -> DestinationView {
        DestinationView {
            server: self.server@,
            database: self.database@,
            table: self.table@,
            column: self.column@,
        }
    }
}

/// What a send comes to: the server and the database to log in to, and the
/// statement to run there.
pub struct Insertion {
    pub server: String,
    pub database: String,
    pub sql: String,
}

/// What a send comes to, the strings as their characters.
pub struct InsertionView {
    pub server: Seq<char>,
    pub database: Seq<char>,
    pub sql: Seq<char>,
}

impl View for Insertion {
    type V = InsertionView;

    open spec fn view(&self) -> InsertionView {
        InsertionView { server: self.server@, database: self.database@, sql: self.sql@ }
    }
}

/// What comes before the first `sign` of a text and what comes after it.
pub open spec fn split_once(text: Seq<char>, sign: char) -> Option<(Seq<char>, Seq<char>)> {
    match text.index_of_first(sign) {
        Some(at) => Some((text.take(at), text.skip(at + 1))),
        None => None,
    }
}

/// The parts of a path between its slashes.
pub open spec fn segments(path: Seq<char>) -> Seq<Seq<char>>
    decreases path.len(),
{
    match split_once(path, '/') {
        Some((first, rest)) => {
            proof {
                path.index_of_first_ensures('/');
            }
            seq![first] + segments(rest)
        },
        None => seq![path],
    }
}

/// What a target has after the scheme that it opens with.
pub open spec fn after_scheme(target: Seq<char>) -> Option<Seq<char>> {
    if "postgresql://"@.is_prefix_of(target) {
        Some(target.skip("postgresql://"@.len() as int))
    } else if "postgres://"@.is_prefix_of(target) {
        Some(target.skip("postgres://"@.len() as int))
    } else {
        None
    }
}

/// The server that a target names and the path on it: what stands between
/// the scheme and the first slash, or before the first slash where that has
/// a colon in it; `server` where the target is only a path.
pub open spec fn located(server: Seq<char>, target: Seq<char>) -> (Seq<char>, Seq<char>) {
    match after_scheme(target) {
        Some(rest) => match split_once(rest, '/') {
            Some(parts) => parts,
            None => (rest, seq![]),
        },
        None => match split_once(target, '/') {
            Some((peer, path)) => if peer.contains(':') {
                (peer, path)
            } else {
                (server, target)
            },
            None => (server, target),
        },
    }
}

/// Where a target is: the database, the table and the column that its path
/// names, or the table and the column on the configured database.
pub open spec fn resolved(transport: TransportView, target: Seq<char>) -> Result<
    DestinationView,
    Fault,
> {
    let (server, path) = located(transport.server, target);
    let parts = segments(path);
    if parts.len() == 3 {
        Ok(DestinationView { server, database: parts[0], table: parts[1], column: parts[2] })
    } else if parts.len() == 2 {
        Ok(
            DestinationView {
                server,
                database: transport.database,
                table: parts[0],
                column: parts[1],
            },
        )
    } else {
        Err(
            permanent(
                str_debug(target) + " is not database/table/column or table/column"@,
            ),
        )
    }
}

/// What sending `bytes` to a target comes to.
pub open spec fn sent(transport: TransportView, target: Seq<char>, bytes: Seq<u8>) -> Result<
    InsertionView,
    Fault,
> {
    match resolved(transport, target) {
        Ok(destination) => Ok(
            InsertionView {
                server: destination.server,
                database: destination.database,
                sql: inserting(destination.table, destination.column, carrying(bytes)),
            },
        ),
        Err(fault) => Err(fault),
    }
}

/// What a row is called: its first column, or its number where that is NULL
/// or there is none.
pub open spec fn row_name(row: Seq<Option<Seq<char>>>, number: nat) -> Seq<char> {
    if row.len() > 0 && row.first() is Some {
        row.first()->0
    } else {
        decimal(number)
    }
}

/// The text of a row's Stream: its last column, empty where that is NULL or
/// there is none.
pub open spec fn row_text(row: Seq<Option<Seq<char>>>) -> Seq<char> {
    if row.len() > 0 && row.last() is Some {
        row.last()->0
    } else {
        seq![]
    }
}

/// The Stream that a row is.
pub open spec fn row_stream(
    transport: TransportView,
    row: Seq<Option<Seq<char>>>,
    number: nat,
) -> ArrivedView {
    ArrivedView {
        origin_uri: "postgresql://"@ + transport.server + "/"@ + transport.database + "?row="@
            + row_name(row, number),
        bytes: carried(row_text(row)),
    }
}

/// The Streams that the rows of a result are, in their order.
pub open spec fn received(
    transport: TransportView,
    rows: Seq<Seq<Option<Seq<char>>>>,
) -> Seq<ArrivedView> {
    Seq::new(rows.len(), |i: int| row_stream(transport, rows[i], i as nat))
}

impl PostgresTransport {
    /// Speak to the server at `server` as `user` on `database`.
    #[must_use]
    pub fn new(server: &str, user: &str, database: &str) -> (transport: Self)
        ensures
            transport@ == (TransportView {
                server: server@,
                user: user@,
                database: database@,
                password: None,
                query: DEFAULT_QUERY@,
                timeout: None,
            }),
    {
        Self {
            server: server.to_string(),
            user: user.to_string(),
            database: database.to_string(),
            password: None,
            query: DEFAULT_QUERY.to_string(),
            timeout: None,
        }
    }

    /// The password to give when the server asks for one in the clear.
    #[must_use]
    pub fn with_password(self, password: &str) -> (transport: Self)
        ensures
            transport@ == (TransportView { password: Some(password@), ..self@ }),
    {
        Self { password: Some(password.to_string()), ..self }
    }

    /// The query a receive runs: the first column is the row's name, the
    /// last is the Stream.
    #[must_use]
    pub fn querying(self, query: &str) -> (transport: Self)
        ensures
            transport@ == (TransportView { query: query@, ..self@ }),
    {
        Self { query: query.to_string(), ..self }
    }

    /// Give up on a server that stops mid-message.
    #[must_use]
    pub fn timing_out_after(self, timeout: Duration) -> (transport: Self)
        ensures
            transport@ == (TransportView { timeout: Some(timeout), ..self@ }),
    {
        Self { timeout: Some(timeout), ..self }
    }

    /// Both ends on this machine: an ephemeral local port, a login by
    /// trust, `timeout` as the loopback has it.
    #[must_use]
    pub fn loopback(timeout: Duration) -> (transport: Self)
        ensures
            transport@ == (TransportView {
                server: "127.0.0.1:0"@,
                user: "probe"@,
                database: "probe"@,
                password: None,
                query: DEFAULT_QUERY@,
                timeout: Some(timeout),
            }),
    {
        Self::new(LOOPBACK_SERVER, LOOPBACK_USER, LOOPBACK_DATABASE).timing_out_after(timeout)
    }

    /// What the transport is called.
    #[must_use]
    pub fn name(&self) -> (name: &'static str)
        ensures
            name@ == "postgresql"@,
    {
        "postgresql"
    }

    /// Where the server is, or what to bind as the far end.
    #[must_use]
    pub fn server(&self) -> (server: &str)
        ensures
            server@ == self@.server,
    {
        self.server.as_str()
    }

    /// The query a receive runs.
    #[must_use]
    pub fn query(&self) -> (query: &str)
        ensures
            query@ == self@.query,
    {
        self.query.as_str()
    }

    /// How long to wait on a server that stops mid-message.
    #[must_use]
    pub fn timeout(&self) -> (timeout: Option<Duration>)
        ensures
            timeout == self@.timeout,
    {
        self.timeout
    }

    /// Log in to the server: the client, and the message to send.
    pub fn connect(&self) -> (opened: (Client, Frontend))
        ensures
            opened.0@ == (ClientView { password: self@.password, parameters: seq![] }),
            opened.1@ == (FrontendView::Startup {
                user: self@.user,
                database: self@.database,
            }),
    {
        self.connect_to(self.database.as_str())
    }

    /// Log in to a server on `database`: the client, and the message to send.
    pub fn connect_to(&self, database: &str) -> (opened: (Client, Frontend))
        ensures
            opened.0@ == (ClientView { password: self@.password, parameters: seq![] }),
            opened.1@ == (FrontendView::Startup { user: self@.user, database: database@ }),
    {
        Client::connect(self.user.as_str(), database, self.password())
    }

    /// The password, where there is one.
    fn password(&self) -> (password: Option<&str>)
        ensures
            password.deep_view() == self@.password,
    {
        match &self.password {
            Some(password) => Some(password.as_str()),
            None => None,
        }
    }

    /// Accept the client at `peer`, demanding this transport's password
    /// where it has one.
    pub fn accept_one(&self, peer: &str) -> (session: Session)
        ensures
            session@ == fresh(peer@, self@.password),
    {
        Session::accept(peer, self.password())
    }

    /// Where a target names the server, database, table and column, or
    /// some suffix of them on what this transport is configured with.
    ///
    /// # Errors
    /// A path that is neither `database/table/column` nor `table/column`.
    pub fn resolve(&self, target: &str) -> (destination: Result<Destination, TransportError>)
        ensures
            match resolved(self@, target@) {
                Ok(d) => destination matches Ok(e) && e@ == d,
                Err(fault) => destination matches Err(e) && e@ == fault,
            },
    {
        let chars = characters(target);
        let chars = chars.as_slice();
        let (server, path) = self.locate(chars);
        let parts = split_path(chars, path);
        let ghost named = parts.deep_view();
        if parts.len() == 3 {
            let destination = Destination {
                server,
                database: parts[0].clone(),
                table: parts[1].clone(),
                column: parts[2].clone(),
            };
            assert(destination.database@ == named[0]);
            assert(destination.table@ == named[1]);
            assert(destination.column@ == named[2]);
            Ok(destination)
        } else if parts.len() == 2 {
            let destination = Destination {
                server,
                database: self.database.clone(),
                table: parts[0].clone(),
                column: parts[1].clone(),
            };
            assert(destination.table@ == named[0]);
            assert(destination.column@ == named[1]);
            Ok(destination)
        } else {
            Err(
                TransportError::permanent(
                    debug_str(target).concat(" is not database/table/column or table/column"),
                ),
            )
        }
    }

    /// The server that a target names, or the configured one, and where the
    /// path on it begins.
    fn locate(&self, chars: &[char]) -> (place: (String, usize))
        ensures
            place.1 <= chars@.len(),
            (place.0@, chars@.skip(place.1 as int)) == located(self@.server, chars@),
    {
        let end: usize = chars.len();
        if let Some(from) = skip_scheme(chars) {
            return match position(chars, from, '/') {
                Some(slash) => {
                    assert(chars@.subrange(from as int, slash as int) == chars@.skip(
                        from as int,
                    ).take(slash - from));
                    assert(chars@.skip(from as int).skip(slash - from + 1) == chars@.skip(
                        slash + 1,
                    ));
                    (spelled(chars, from, slash), slash + 1)
                },
                None => {
                    assert(chars@.subrange(from as int, chars@.len() as int) == chars@.skip(
                        from as int,
                    ));
                    assert(chars@.skip(chars@.len() as int) == Seq::<char>::empty());
                    (spelled(chars, from, end), end)
                },
            };
        }
        assert(chars@.skip(0) == chars@);
        if let Some(slash) = position(chars, 0, '/') {
            let ghost peer = chars@.take(slash as int);
            if let Some(colon) = position(chars, 0, ':') {
                if colon < slash {
                    assert(peer[colon as int] == ':');
                    assert(chars@.subrange(0, slash as int) == peer);
                    return (spelled(chars, 0, slash), slash + 1);
                }
            }
            assert(!peer.contains(':'));
        }
        (self.server.clone(), 0)
    }

    /// The Streams that the rows of `result` are: the answer to the query of
    /// a receive, each row a Stream.
    pub fn receive(&self, result: QueryResult) -> (streams: Vec<Arrived>)
        ensures
            streams.deep_view() == received(self@, result@.rows),
    {
        let rows = result.rows;
        let mut streams: Vec<Arrived> = Vec::new();
        let mut at: usize = 0;
        while at < rows.len()
            invariant
                at <= rows@.len(),
                streams.deep_view() == received(self@, rows.deep_view()).take(at as int),
            decreases rows@.len() - at,
        {
            let ghost before = streams.deep_view();
            let ghost row = rows.deep_view()[at as int];
            streams.push(self.row_arrived(&rows[at], at));
            assert(streams.deep_view() == before.push(row_stream(self@, row, at as nat)));
            at = at + 1;
            assert(streams.deep_view() == received(self@, rows.deep_view()).take(at as int));
        }
        assert(received(self@, rows.deep_view()).take(at as int) == received(
            self@,
            rows.deep_view(),
        ));
        streams
    }

    /// The Stream that a row is.
    fn row_arrived(&self, row: &Vec<Option<String>>, index: usize) -> (stream: Arrived)
        ensures
            stream@ == row_stream(self@, row.deep_view(), index as nat),
    {
        let ghost texts = row.deep_view();
        let name = if row.len() > 0 {
            assert(texts.first() == row@[0].deep_view());
            match &row[0] {
                Some(name) => name.clone(),
                None => number(index as u64),
            }
        } else {
            number(index as u64)
        };
        let value = if row.len() > 0 {
            assert(texts.last() == row@[row@.len() - 1].deep_view());
            match &row[row.len() - 1] {
                Some(value) => value.clone(),
                None => String::new(),
            }
        } else {
            String::new()
        };
        Arrived::new(
            "postgresql://".to_string().concat(self.server.as_str()).concat("/").concat(
                self.database.as_str(),
            ).concat("?row=").concat(name.as_str()),
            column_bytes(value),
        )
    }

    /// What inserting `bytes` as one column of one row at `target` comes to:
    /// text as text, anything else in the bytea hex form.
    ///
    /// # Errors
    /// A target that names no column.
    pub fn send(&self, target: &str, bytes: &[u8]) -> (insertion: Result<Insertion, TransportError>)
        ensures
            match sent(self@, target@, bytes@) {
                Ok(i) => insertion matches Ok(j) && j@ == i,
                Err(fault) => insertion matches Err(e) && e@ == fault,
            },
    {
        let destination = self.resolve(target)?;
        let literal = match core::str::from_utf8(bytes) {
            Ok(text) => if is_text(bytes) {
                quote_literal(text)
            } else {
                quote_literal(hex_literal(bytes).as_str())
            },
            Err(_) => quote_literal(hex_literal(bytes).as_str()),
        };
        let sql = "INSERT INTO ".to_string().concat(
            quote_identifier(destination.table.as_str()).as_str(),
        ).concat(" (").concat(quote_identifier(destination.column.as_str()).as_str()).concat(
            ") VALUES (",
        ).concat(literal.as_str()).concat(")");
        Ok(Insertion { server: destination.server, database: destination.database, sql })
    }
}

impl PostgresTransport {
    /// What inserting `payload` from a fresh near end comes to, which logs in
    /// to `address` as this transport does: one column of one row, text as
    /// text, anything else in the bytea hex form.
    ///
    /// # Errors
    /// None, for the loopback's target names its column.
    pub fn send_to(&self, address: &str, payload: &[u8]) -> (insertion: Result<
        Insertion,
        TransportError,
    >)
        ensures
            insertion matches Ok(i) && i@ == (InsertionView {
                server: address@,
                database: self@.database,
                sql: inserting("probe"@, "payload"@, carrying(payload@)),
            }),
    {
        let near = Self {
            server: address.to_string(),
            user: self.user.clone(),
            database: self.database.clone(),
            password: self.password.clone(),
            query: self.query.clone(),
            timeout: self.timeout,
        };
        proof {
            lemma_loopback_target(near@);
        }
        near.send(LOOPBACK_TARGET, payload)
    }
}

/// Where a target goes on after the scheme that it opens with.
fn skip_scheme(chars: &[char]) -> (to: Option<usize>)
    ensures
        match after_scheme(chars@) {
            Some(rest) => to matches Some(t) && t <= chars@.len() && chars@.skip(t as int) == rest,
            None => to is None,
        },
{
    match skip_prefix(chars, "postgresql://") {
        Some(to) => Some(to),
        None => skip_prefix(chars, "postgres://"),
    }
}

/// Where the characters go on after `prefix`, where they open with it.
fn skip_prefix(chars: &[char], prefix: &str) -> (to: Option<usize>)
    ensures
        match to {
            Some(t) => prefix@.is_prefix_of(chars@) && t == prefix@.len() && t <= chars@.len(),
            None => !prefix@.is_prefix_of(chars@),
        },
{
    let opening = characters(prefix);
    if opening.len() > chars.len() {
        return None;
    }
    let mut at: usize = 0;
    while at < opening.len()
        invariant
            opening@ == prefix@,
            at <= opening@.len() <= chars@.len(),
            forall|i: int| 0 <= i < at ==> opening@[i] == chars@[i],
        decreases opening@.len() - at,
    {
        if opening[at] != chars[at] {
            assert(prefix@[at as int] != chars@.subrange(0, prefix@.len() as int)[at as int]);
            return None;
        }
        at = at + 1;
    }
    assert(prefix@ == chars@.subrange(0, prefix@.len() as int));
    Some(opening.len())
}

/// Where the first `sign` is from `from` on.
fn position(chars: &[char], from: usize, sign: char) -> (at: Option<usize>)
    requires
        from <= chars@.len(),
    ensures
        match chars@.skip(from as int).index_of_first(sign) {
            Some(i) => at matches Some(a) && a == from + i && from <= a < chars@.len()
                && chars@[a as int] == sign && forall|j: int|
                from <= j < a ==> chars@[j] != sign,
            None => at is None && !chars@.skip(from as int).contains(sign),
        },
{
    let ghost text = chars@.skip(from as int);
    let mut at: usize = from;
    while at < chars.len()
        invariant
            from <= at <= chars@.len(),
            text == chars@.skip(from as int),
            forall|j: int| from <= j < at ==> chars@[j] != sign,
        decreases chars@.len() - at,
    {
        if chars[at] == sign {
            proof {
                assert(text[at - from] == sign);
                text.index_of_first_ensures(sign);
                let i = text.index_of_first(sign)->0;
                assert(chars@[from + i] == sign);
            }
            return Some(at);
        }
        at = at + 1;
    }
    proof {
        text.index_of_first_ensures(sign);
    }
    None
}

/// The parts between the slashes of the path that begins at `from`.
fn split_path(chars: &[char], from: usize) -> (parts: Vec<String>)
    requires
        from <= chars@.len(),
    ensures
        parts.deep_view() == segments(chars@.skip(from as int)),
{
    let ghost path = chars@.skip(from as int);
    let end: usize = chars.len();
    let mut parts: Vec<String> = Vec::new();
    let mut at: usize = from;
    assert(parts.deep_view() + segments(path) == segments(path));
    loop
        invariant_except_break
            parts.deep_view() + segments(chars@.skip(at as int)) == segments(path),
        invariant
            from <= at <= chars@.len() == end,
        ensures
            parts.deep_view() == segments(path),
        decreases chars@.len() - at,
    {
        let ghost before = parts.deep_view();
        let ghost rest = chars@.skip(at as int);
        match position(chars, at, '/') {
            Some(slash) => {
                parts.push(spelled(chars, at, slash));
                proof {
                    let first = chars@.subrange(at as int, slash as int);
                    assert(rest.take(slash - at) == first);
                    assert(rest.skip(slash - at + 1) == chars@.skip(slash + 1));
                    assert(segments(rest) == seq![first] + segments(chars@.skip(slash + 1)));
                    assert(parts.deep_view() == before.push(first));
                    assert(before + (seq![first] + segments(chars@.skip(slash + 1))) == before.push(
                        first,
                    ) + segments(chars@.skip(slash + 1)));
                }
                at = slash + 1;
            },
            None => {
                parts.push(spelled(chars, at, end));
                proof {
                    assert(chars@.subrange(at as int, chars@.len() as int) == rest);
                    assert(segments(rest) == seq![rest]);
                    assert(parts.deep_view() == before.push(rest));
                    assert(before + seq![rest] == before.push(rest));
                }
                break;
            },
        }
    }
    parts
}

/// The Stream that a far end took, which has to have taken one.
///
/// # Errors
/// Where the client closed before it inserted.
pub fn take_one(inserted: Option<Arrived>) -> (stream: Result<Arrived, TransportError>)
    ensures
        match inserted {
            Some(arrived) => stream matches Ok(a) && a == arrived,
            None => stream matches Err(e) && e@ == permanent(
                "the client closed without inserting"@,
            ),
        },
{
    match inserted {
        Some(arrived) => Ok(arrived),
        None => Err(protocol_error("the client closed without inserting")),
    }
}

/// A text without a slash is one part.
proof fn lemma_one_segment(part: Seq<char>)
    requires
        !part.contains('/'),
    ensures
        segments(part) == seq![part],
{
    part.index_of_first_ensures('/');
}

/// A part without a slash comes off before the first slash.
proof fn lemma_split_once(part: Seq<char>, sign: char, rest: Seq<char>)
    requires
        !part.contains(sign),
    ensures
        split_once(part + seq![sign] + rest, sign) == Some((part, rest)),
{
    let text = part + seq![sign] + rest;
    assert(text[part.len() as int] == sign);
    text.index_of_first_ensures(sign);
    let at = text.index_of_first(sign)->0;
    assert(at == part.len()) by {
        if at < part.len() {
            assert(part[at] == sign);
        }
    }
    assert(text.take(at) == part);
    assert(text.skip(at + 1) == rest);
}

/// The parts of a path are what stands between its slashes.
proof fn lemma_segments(first: Seq<char>, rest: Seq<char>)
    requires
        !first.contains('/'),
    ensures
        segments(first + seq!['/'] + rest) == seq![first] + segments(rest),
{
    lemma_split_once(first, '/', rest);
}

/// The loopback's target names its column on the configured server and
/// database.
proof fn lemma_loopback_target(transport: TransportView)
    ensures
        resolved(transport, "probe/payload"@) == Ok::<DestinationView, Fault>(
            DestinationView {
                server: transport.server,
                database: transport.database,
                table: "probe"@,
                column: "payload"@,
            },
        ),
{
    reveal_strlit("probe/payload");
    reveal_strlit("probe");
    reveal_strlit("payload");
    assert("probe/payload"@ == "probe"@ + seq!['/'] + "payload"@);
    law_path_is_on_the_configured_server(transport, "probe"@, "payload"@);
}

/// What the schemes are, letter by letter.
proof fn lemma_schemes()
    ensures
        "postgresql://"@.len() == 13,
        "postgres://"@.len() == 11,
        "postgresql:"@.len() == 11,
        "postgres:"@.len() == 9,
        "postgresql://"@ == "postgresql:"@ + seq!['/', '/'],
        "postgres://"@ == "postgres:"@ + seq!['/', '/'],
        "postgresql:"@[8] == 'q',
        "postgresql:"@[10] == ':',
        "postgres:"@[8] == ':',
        !"postgresql:"@.contains('/'),
        !"postgres:"@.contains('/'),
{
    reveal_strlit("postgresql://");
    reveal_strlit("postgres://");
    reveal_strlit("postgresql:");
    reveal_strlit("postgres:");
}

/// Whether a text is what a scheme has before its slashes.
pub open spec fn scheme_word(text: Seq<char>) -> bool {
    text == "postgresql:"@ || text == "postgres:"@
}

/// A target opens with a scheme only where the scheme is what comes before
/// its first slash, and a second slash follows at once.
proof fn lemma_no_scheme(first: Seq<char>, rest: Seq<char>)
    requires
        !first.contains('/'),
        scheme_word(first) ==> rest.len() == 0 || rest[0] != '/',
    ensures
        after_scheme(first + seq!['/'] + rest) is None,
{
    let target = first + seq!['/'] + rest;
    lemma_schemes();
    if "postgresql://"@.is_prefix_of(target) {
        lemma_scheme_splits("postgresql:"@, first, rest);
    } else if "postgres://"@.is_prefix_of(target) {
        lemma_scheme_splits("postgres:"@, first, rest);
    }
}

/// Where a text opens with a word and two slashes, the word is what comes
/// before its first slash.
proof fn lemma_scheme_splits(word: Seq<char>, first: Seq<char>, rest: Seq<char>)
    requires
        !word.contains('/'),
        !first.contains('/'),
        (word + seq!['/', '/']).is_prefix_of(first + seq!['/'] + rest),
    ensures
        first == word,
        rest.len() > 0,
        rest[0] == '/',
{
    let target = first + seq!['/'] + rest;
    let scheme = word + seq!['/', '/'];
    assert(forall|i: int| 0 <= i < scheme.len() ==> scheme[i] == #[trigger] target[i]);
    assert(target[first.len() as int] == '/');
    assert(target[word.len() as int] == '/');
    assert(first.len() == word.len()) by {
        if first.len() < word.len() {
            assert(word[first.len() as int] == '/');
        }
        if word.len() < first.len() {
            assert(first[word.len() as int] == '/');
        }
    }
    assert forall|i: int| 0 <= i < word.len() implies first[i] == word[i] by {
        assert(target[i] == scheme[i]);
    }
    assert(first == word);
    assert(target[word.len() as int + 1] == '/');
}

/// A table and a column are on the configured server and database. Where the
/// table has a colon in it, it reads as a server instead.
pub proof fn law_path_is_on_the_configured_server(
    transport: TransportView,
    table: Seq<char>,
    column: Seq<char>,
)
    requires
        !table.contains('/'),
        !table.contains(':'),
        !column.contains('/'),
    ensures
        resolved(transport, table + seq!['/'] + column) == Ok::<DestinationView, Fault>(
            DestinationView {
                server: transport.server,
                database: transport.database,
                table,
                column,
            },
        ),
{
    lemma_only_a_path(transport.server, table, column);
    lemma_segments(table, column);
    lemma_one_segment(column);
}

/// A database, a table and a column are on the configured server. Where the
/// database has a colon in it, it reads as a server instead.
pub proof fn law_database_path_is_on_the_configured_server(
    transport: TransportView,
    database: Seq<char>,
    table: Seq<char>,
    column: Seq<char>,
)
    requires
        !database.contains('/'),
        !database.contains(':'),
        !table.contains('/'),
        !column.contains('/'),
    ensures
        resolved(transport, database + seq!['/'] + (table + seq!['/'] + column)) == Ok::<
            DestinationView,
            Fault,
        >(DestinationView { server: transport.server, database, table, column }),
{
    lemma_only_a_path(transport.server, database, table + seq!['/'] + column);
    lemma_three_segments(database, table, column);
}

/// A target without a colon before its first slash is only a path.
proof fn lemma_only_a_path(server: Seq<char>, first: Seq<char>, rest: Seq<char>)
    requires
        !first.contains('/'),
        !first.contains(':'),
    ensures
        located(server, first + seq!['/'] + rest) == (server, first + seq!['/'] + rest),
{
    lemma_schemes();
    assert(!scheme_word(first)) by {
        if scheme_word(first) {
            assert(first.contains("postgresql:"@[10]));
        }
    }
    lemma_no_scheme(first, rest);
    lemma_split_once(first, '/', rest);
}

/// The path `<database>/<table>/<column>` has those three parts.
proof fn lemma_three_segments(database: Seq<char>, table: Seq<char>, column: Seq<char>)
    requires
        !database.contains('/'),
        !table.contains('/'),
        !column.contains('/'),
    ensures
        segments(database + seq!['/'] + (table + seq!['/'] + column)) == seq![
            database,
            table,
            column,
        ],
        segments(table + seq!['/'] + column) == seq![table, column],
{
    lemma_segments(database, table + seq!['/'] + column);
    lemma_segments(table, column);
    lemma_one_segment(column);
}

/// An address with a colon names the server, and the path behind it the
/// database, the table and the column, or the table and the column on the
/// configured database. Only where the address is what a scheme has before
/// its slashes, and an empty part follows it, does the target read as that
/// scheme instead.
pub proof fn law_address_names_the_server(
    transport: TransportView,
    address: Seq<char>,
    database: Seq<char>,
    table: Seq<char>,
    column: Seq<char>,
)
    requires
        address.contains(':'),
        !address.contains('/'),
        !database.contains('/'),
        !table.contains('/'),
        !column.contains('/'),
    ensures
        ({
            let short = table + seq!['/'] + column;
            let long = database + seq!['/'] + short;
            let named = DestinationView { server: address, database, table, column };
            let configured = DestinationView { database: transport.database, ..named };
            &&& !(scheme_word(address) && database.len() == 0) ==> resolved(
                transport,
                address + seq!['/'] + long,
            ) == Ok::<_, Fault>(named)
            &&& !(scheme_word(address) && table.len() == 0) ==> resolved(
                transport,
                address + seq!['/'] + short,
            ) == Ok::<_, Fault>(configured)
        }),
{
    let short = table + seq!['/'] + column;
    let long = database + seq!['/'] + short;
    lemma_three_segments(database, table, column);
    lemma_split_once(address, '/', long);
    lemma_split_once(address, '/', short);
    if !(scheme_word(address) && database.len() == 0) {
        if scheme_word(address) {
            assert(long[0] == database[0]);
            assert(database.contains(database[0]));
        }
        lemma_no_scheme(address, long);
    }
    if !(scheme_word(address) && table.len() == 0) {
        if scheme_word(address) {
            assert(short[0] == table[0]);
            assert(table.contains(table[0]));
        }
        lemma_no_scheme(address, short);
    }
}

/// A URI names the server and, in its path, the database, the table and the
/// column, or the table and the column on the configured database.
pub proof fn law_uri_names_the_server(
    transport: TransportView,
    server: Seq<char>,
    database: Seq<char>,
    table: Seq<char>,
    column: Seq<char>,
)
    requires
        !server.contains('/'),
        !database.contains('/'),
        !table.contains('/'),
        !column.contains('/'),
    ensures
        ({
            let short = table + seq!['/'] + column;
            let long = database + seq!['/'] + short;
            let named = DestinationView { server, database, table, column };
            let configured = DestinationView { database: transport.database, ..named };
            &&& resolved(transport, "postgresql://"@ + (server + seq!['/'] + long)) == Ok::<_, Fault>(
                named,
            )
            &&& resolved(transport, "postgres://"@ + (server + seq!['/'] + long)) == Ok::<_, Fault>(
                named,
            )
            &&& resolved(transport, "postgresql://"@ + (server + seq!['/'] + short)) == Ok::<
                _,
                Fault,
            >(configured)
            &&& resolved(transport, "postgres://"@ + (server + seq!['/'] + short)) == Ok::<
                _,
                Fault,
            >(configured)
        }),
{
    let short = table + seq!['/'] + column;
    let long = database + seq!['/'] + short;
    lemma_three_segments(database, table, column);
    lemma_split_once(server, '/', long);
    lemma_split_once(server, '/', short);
    lemma_after_scheme(server + seq!['/'] + long);
    lemma_after_scheme(server + seq!['/'] + short);
}

/// What follows a scheme is what a target has after it.
proof fn lemma_after_scheme(rest: Seq<char>)
    ensures
        after_scheme("postgresql://"@ + rest) == Some(rest),
        after_scheme("postgres://"@ + rest) == Some(rest),
{
    lemma_schemes();
    let full = "postgresql://"@ + rest;
    let short = "postgres://"@ + rest;
    assert(full.subrange(0, 13) == "postgresql://"@);
    assert(full.skip(13) == rest);
    assert(short.subrange(0, 11) == "postgres://"@);
    assert(short.skip(11) == rest);
    assert(!"postgresql://"@.is_prefix_of(short)) by {
        assert("postgresql://"@[8] == 'q');
        assert(short[8] == ':');
        if "postgresql://"@.is_prefix_of(short) {
            assert(short.subrange(0, 13)[8] == short[8]);
        }
    }
}

/// Whether a Stream is text that is itself in the hex form, which a column
/// does not tell from the bytes that it names.
pub open spec fn ambiguous(bytes: Seq<u8>) -> bool {
    holds_text(bytes) && in_hex_form(decode_utf8(bytes))
}

/// What a session says to an INSERT that it took.
pub open spec fn inserted_reply() -> Seq<BackendView> {
    seq![
        BackendView::CommandComplete("INSERT 0 1"@),
        BackendView::ReadyForQuery('I' as u8),
    ]
}

/// A session takes the statement of a send for the Stream that was sent.
proof fn lemma_insertion_is_taken(
    session: SessionView,
    table: Seq<char>,
    column: Seq<char>,
    bytes: Seq<u8>,
)
    requires
        !ambiguous(bytes),
    ensures
        turn_of(
            session,
            Some(FrontendView::Query(inserting(table, column, carrying(bytes)))),
            None,
        ) == Ok::<TurnView, Fault>(
            TurnView::Reply {
                messages: inserted_reply(),
                event: EventView::Inserted(
                    ArrivedView { origin_uri: inserted_origin(session, table, column), bytes },
                ),
            },
        ),
{
    let value = carrying(bytes);
    law_insert_is_taken_apart(
        quoted(table, '"'),
        table,
        quoted(column, '"'),
        column,
        value,
    );
    law_a_column_carries_its_stream(bytes);
    reveal_strlit("SELECT");
    reveal_strlit("INSERT");
    assert("SELECT"@[0] != "INSERT"@[0]);
    let complete = AnswerView::Complete("INSERT 0 1"@);
    assert(answer_messages(complete).push(BackendView::ReadyForQuery('I' as u8))
        == inserted_reply());
}

/// A Stream that is sent arrives whole, text and binary alike. Its statement
/// is read off the wire as it was written, with nothing taken of what
/// follows; the session that reads it reports the Stream, byte for byte, as
/// come from the database, the table and the column that the target names;
/// and what the session answers ends the client's statement with its tag, and
/// nothing that follows is taken for it.
///
/// A wire string ends at its first NUL, so a table or a column that has one
/// is cut there; a statement that is longer than a message may be is not
/// read; and text in the hex form comes back as the bytes that it names.
pub proof fn law_a_sent_stream_arrives_whole(
    transport: TransportView,
    target: Seq<char>,
    bytes: Seq<u8>,
    session: SessionView,
    rest: Seq<u8>,
)
    requires
        resolved(transport, target) matches Ok(destination) && {
            &&& session.database == destination.database
            &&& !destination.table.contains('\0')
            &&& !destination.column.contains('\0')
        },
        !ambiguous(bytes),
        frontend_body(FrontendView::Query(sent(transport, target, bytes)->Ok_0.sql)).len() + 4
            <= MAX_MESSAGE,
    ensures
        ({
            let destination = resolved(transport, target)->Ok_0;
            let insertion = sent(transport, target, bytes)->Ok_0;
            let query = FrontendView::Query(insertion.sql);
            let origin = "postgresql://"@ + session.peer + "/"@ + destination.database + "/"@
                + destination.table + "/"@ + destination.column;
            &&& sent(transport, target, bytes) is Ok
            &&& insertion.server == destination.server
            &&& insertion.database == destination.database
            &&& frontend_read(frontend_bytes(query) + rest) == (
                Ok::<Option<FrontendView>, Fault>(Some(query)),
                rest,
            )
            &&& turn_of(session, Some(query), None) == Ok::<TurnView, Fault>(
                TurnView::Reply {
                    messages: inserted_reply(),
                    event: EventView::Inserted(ArrivedView { origin_uri: origin, bytes }),
                },
            )
            &&& query_read(just_asked(), backend_stream(inserted_reply()) + rest)
                == ProgressView::Done(
                QueryResultView { columns: seq![], rows: seq![], tag: "INSERT 0 1"@ },
            )
            &&& query_rest(just_asked(), backend_stream(inserted_reply()) + rest) == rest
        }),
{
    let destination = resolved(transport, target)->Ok_0;
    lemma_insertion_is_read(destination.table, destination.column, bytes, rest);
    lemma_insertion_is_taken(session, destination.table, destination.column, bytes);
    lemma_inserted_reply_is_collected(rest);
}

/// The statement of a send is read off the wire as it was written.
proof fn lemma_insertion_is_read(
    table: Seq<char>,
    column: Seq<char>,
    bytes: Seq<u8>,
    rest: Seq<u8>,
)
    requires
        !table.contains('\0'),
        !column.contains('\0'),
        frontend_body(FrontendView::Query(inserting(table, column, carrying(bytes)))).len() + 4
            <= MAX_MESSAGE,
    ensures
        ({
            let query = FrontendView::Query(inserting(table, column, carrying(bytes)));
            frontend_read(frontend_bytes(query) + rest) == (
                Ok::<Option<FrontendView>, Fault>(Some(query)),
                rest,
            )
        }),
{
    law_what_carries_has_no_nul(bytes);
    lemma_inserting_has_no_nul(table, column, carrying(bytes));
    law_frontend_reads_back(
        FrontendView::Query(inserting(table, column, carrying(bytes))),
        rest,
    );
}

/// What a session says to an INSERT ends the statement with its tag.
proof fn lemma_inserted_reply_is_collected(rest: Seq<u8>)
    ensures
        query_read(just_asked(), backend_stream(inserted_reply()) + rest) == ProgressView::Done(
            QueryResultView { columns: seq![], rows: seq![], tag: "INSERT 0 1"@ },
        ),
        query_rest(just_asked(), backend_stream(inserted_reply()) + rest) == rest,
{
    let complete = AnswerView::Complete("INSERT 0 1"@);
    assert(answer_messages(complete).push(BackendView::ReadyForQuery('I' as u8))
        == inserted_reply());
    lemma_inserted_tag_is_sendable();
    law_query_reads_just_its_answer(complete, 'I' as u8, rest);
}

/// The tag of an INSERT can go on the wire as it is.
proof fn lemma_inserted_tag_is_sendable()
    ensures
        backend_sendable(BackendView::CommandComplete("INSERT 0 1"@)),
{
    reveal_strlit("INSERT 0 1");
    assert(encode_utf8("INSERT 0 1"@).len() <= 4 * "INSERT 0 1"@.len()) by {
        lemma_utf8_length("INSERT 0 1"@);
    }
}

/// The loopback returns its payload whole: what a send to the far end comes
/// to is read there as it was written, and taken for the payload, and what
/// the far end answers ends the send.
pub proof fn law_the_loopback_returns_its_payload(
    transport: TransportView,
    address: Seq<char>,
    payload: Seq<u8>,
    session: SessionView,
    rest: Seq<u8>,
)
    requires
        session.database == transport.database,
        !ambiguous(payload),
        frontend_body(
            FrontendView::Query(inserting("probe"@, "payload"@, carrying(payload))),
        ).len() + 4 <= MAX_MESSAGE,
    ensures
        ({
            let near = TransportView { server: address, ..transport };
            let query = FrontendView::Query(
                inserting("probe"@, "payload"@, carrying(payload)),
            );
            let origin = "postgresql://"@ + session.peer + "/"@ + transport.database + "/"@
                + "probe"@ + "/"@ + "payload"@;
            &&& sent(near, "probe/payload"@, payload) == Ok::<InsertionView, Fault>(
                InsertionView {
                    server: address,
                    database: transport.database,
                    sql: inserting("probe"@, "payload"@, carrying(payload)),
                },
            )
            &&& frontend_read(frontend_bytes(query) + rest) == (
                Ok::<Option<FrontendView>, Fault>(Some(query)),
                rest,
            )
            &&& turn_of(session, Some(query), None) == Ok::<TurnView, Fault>(
                TurnView::Reply {
                    messages: inserted_reply(),
                    event: EventView::Inserted(
                        ArrivedView { origin_uri: origin, bytes: payload },
                    ),
                },
            )
            &&& query_read(just_asked(), backend_stream(inserted_reply()) + rest)
                == ProgressView::Done(
                QueryResultView { columns: seq![], rows: seq![], tag: "INSERT 0 1"@ },
            )
            &&& query_rest(just_asked(), backend_stream(inserted_reply()) + rest) == rest
        }),
{
    lemma_loopback_target(TransportView { server: address, ..transport });
    lemma_loopback_names();
    lemma_insertion_is_read("probe"@, "payload"@, payload, rest);
    lemma_insertion_is_taken(session, "probe"@, "payload"@, payload);
    lemma_inserted_reply_is_collected(rest);
}

/// The loopback's table and column have no NUL.
proof fn lemma_loopback_names()
    ensures
        !"probe"@.contains('\0'),
        !"payload"@.contains('\0'),
{
    reveal_strlit("probe");
    reveal_strlit("payload");
}

/// The messages that a SELECT is answered with.
pub open spec fn selected_reply(session: SessionView) -> Seq<BackendView> {
    answer_messages(
        AnswerView::Rows { columns: session.columns, rows: session.rows },
    ).push(BackendView::ReadyForQuery('I' as u8))
}

/// A receive gets each row of the table that a session serves: its query, where
/// it can go on the wire as it is, is read off it as it was written, and is
/// answered with the rows; the client reads just those off the wire, in their
/// order, and each is a Stream, so there are as many as there are rows.
pub proof fn law_a_receive_gets_each_row(
    transport: TransportView,
    session: SessionView,
    rest: Seq<u8>,
)
    requires
        verb_of(transport.query) == "SELECT"@,
        forall|i: int|
            0 <= i < selected_reply(session).len() ==> backend_sendable(
                #[trigger] selected_reply(session)[i],
            ),
    ensures
        ({
            let messages = selected_reply(session);
            let query = FrontendView::Query(transport.query);
            &&& frontend_sendable(query) ==> frontend_read(frontend_bytes(query) + rest) == (
                Ok::<Option<FrontendView>, Fault>(Some(query)),
                rest,
            )
            &&& turn_of(session, Some(query), None) == Ok::<
                TurnView,
                Fault,
            >(TurnView::Reply { messages, event: EventView::Selected(transport.query) })
            &&& query_read(just_asked(), backend_stream(messages) + rest) == ProgressView::Done(
                QueryResultView {
                    columns: session.columns,
                    rows: session.rows,
                    tag: "SELECT "@ + decimal(session.rows.len()),
                },
            )
            &&& query_rest(just_asked(), backend_stream(messages) + rest) == rest
            &&& received(transport, session.rows).len() == session.rows.len()
            &&& forall|i: int|
                0 <= i < session.rows.len() ==> #[trigger] received(transport, session.rows)[i]
                    == row_stream(transport, session.rows[i], i as nat)
        }),
{
    let answer = AnswerView::Rows { columns: session.columns, rows: session.rows };
    let query = FrontendView::Query(transport.query);
    if frontend_sendable(query) {
        law_frontend_reads_back(query, rest);
    }
    assert forall|i: int| 0 <= i < answer_messages(answer).len() implies backend_sendable(
        #[trigger] answer_messages(answer)[i],
    ) by {
        assert(answer_messages(answer)[i] == selected_reply(session)[i]);
    }
    law_query_reads_just_its_answer(answer, 'I' as u8, rest);
}

/// A Stream that a row keeps as a send inserts it is received whole, whether
/// it was inserted as text or in the hex form.
pub proof fn law_a_kept_stream_is_received_whole(
    transport: TransportView,
    row: Seq<Option<Seq<char>>>,
    number: nat,
    bytes: Seq<u8>,
)
    requires
        row.len() > 0,
        row.last() == Some(carrying(bytes)),
        !ambiguous(bytes),
    ensures
        row_stream(transport, row, number).bytes == bytes,
{
    law_a_column_carries_its_stream(bytes);
}

/// Text without a NUL, of whatever letters, is sent as it is: the literal of
/// the statement is that text, every quote in it doubled.
pub proof fn law_text_is_sent_as_text(
    transport: TransportView,
    target: Seq<char>,
    text: Seq<char>,
)
    requires
        resolved(transport, target) is Ok,
        !text.contains('\0'),
    ensures
        ({
            let destination = resolved(transport, target)->Ok_0;
            sent(transport, target, encode_utf8(text)) == Ok::<InsertionView, Fault>(
                InsertionView {
                    server: destination.server,
                    database: destination.database,
                    sql: "INSERT INTO "@ + quoted(destination.table, '"') + " ("@ + quoted(
                        destination.column,
                        '"',
                    ) + ") VALUES ("@ + quoted(text, '\'') + ")"@,
                },
            )
        }),
{
    law_text_is_carried_as_it_is(text);
}

/// What is not UTF-8, or has a NUL, is sent in the hex form: the literal of
/// the statement is a backslash, an `x`, and two digits a byte.
pub proof fn law_other_bytes_are_sent_in_hex(
    transport: TransportView,
    target: Seq<char>,
    bytes: Seq<u8>,
    hex: Seq<char>,
)
    requires
        resolved(transport, target) is Ok,
        !valid_utf8(bytes) || bytes.contains(0),
        hex.len() == 2 + 2 * bytes.len(),
        hex[0] == '\\',
        hex[1] == 'x',
        forall|i: int|
            0 <= i < bytes.len() ==> hex[2 + 2 * i] == "0123456789abcdef"@[#[trigger] bytes[i] as int
                / 16] && hex[3 + 2 * i] == "0123456789abcdef"@[bytes[i] as int % 16],
    ensures
        ({
            let destination = resolved(transport, target)->Ok_0;
            sent(transport, target, bytes) == Ok::<InsertionView, Fault>(
                InsertionView {
                    server: destination.server,
                    database: destination.database,
                    sql: "INSERT INTO "@ + quoted(destination.table, '"') + " ("@ + quoted(
                        destination.column,
                        '"',
                    ) + ") VALUES ("@ + quoted(hex, '\'') + ")"@,
                },
            )
        }),
{
    law_what_is_not_text_is_carried_in_hex(bytes);
    let text = carrying(bytes);
    assert forall|i: int| 0 <= i < text.len() implies text[i] == hex[i] by {
        if i >= 2 {
            let half = (i - 2) / 2;
            assert(bytes[half] == bytes[half]);
            assert(i == 2 + 2 * half || i == 3 + 2 * half);
        }
    }
    assert(text == hex);
}

/// A target that names no column is refused before anything is sent, whatever
/// the bytes are.
pub proof fn law_a_refused_target_sends_nothing(
    transport: TransportView,
    target: Seq<char>,
    bytes: Seq<u8>,
)
    ensures
        resolved(transport, target) matches Err(fault) ==> sent(transport, target, bytes) == Err::<
            InsertionView,
            Fault,
        >(fault),
{
}

/// NULL is an empty Stream, and so is a row of no columns: where the last
/// column has no text, the Stream has no bytes, whatever the other columns
/// hold.
pub proof fn law_null_is_an_empty_stream(
    transport: TransportView,
    row: Seq<Option<Seq<char>>>,
    number: nat,
)
    requires
        row.len() == 0 || row.last() is None,
    ensures
        row_stream(transport, row, number).bytes == Seq::<u8>::empty(),
{
    law_a_column_carries_its_text_or_the_bytes_it_names(seq![]);
    assert(encode_utf8(Seq::<char>::empty()) == Seq::<u8>::empty());
}

/// The bytes of a row's Stream are its last column's and no other's: rows that
/// end alike carry the same, whatever else is in them and wherever they are
/// received from.
pub proof fn law_a_row_carries_its_last_column(
    transport: TransportView,
    other: TransportView,
    columns: Seq<Option<Seq<char>>>,
    others: Seq<Option<Seq<char>>>,
    last: Seq<char>,
    number: nat,
    another: nat,
)
    ensures
        ({
            let stream = row_stream(transport, columns.push(Some(last)), number);
            &&& stream.bytes == row_stream(other, others.push(Some(last)), another).bytes
            &&& !looks_like_hex(last) ==> stream.bytes == encode_utf8(last)
            &&& looks_like_hex(last) ==> hex_named(last) == Some(stream.bytes)
        }),
{
    law_a_column_carries_its_text_or_the_bytes_it_names(last);
    assert(columns.push(Some(last)).last() == Some(last));
    assert(others.push(Some(last)).last() == Some(last));
}

/// A row is named by its first column, and by its number where that is NULL or
/// there is none; its Stream comes from the configured server and database.
pub proof fn law_a_row_is_named_by_its_first_column(
    transport: TransportView,
    row: Seq<Option<Seq<char>>>,
    number: nat,
)
    ensures
        ({
            let origin = row_stream(transport, row, number).origin_uri;
            let base = "postgresql://"@ + transport.server + "/"@ + transport.database + "?row="@;
            &&& row.len() > 0 && row[0] is Some ==> origin == base + row[0]->0
            &&& row.len() == 0 || row[0] is None ==> origin == base + decimal(number)
        }),
{
}

/// A receive hands up one Stream for each row and no other, in the order of
/// the rows, each by its own number.
pub proof fn law_each_row_is_a_stream(
    transport: TransportView,
    rows: Seq<Seq<Option<Seq<char>>>>,
)
    ensures
        received(transport, rows).len() == rows.len(),
        forall|i: int|
            0 <= i < rows.len() ==> #[trigger] received(transport, rows)[i] == row_stream(
                transport,
                rows[i],
                i as nat,
            ),
{
}

/// Parts with a slash between each two.
pub open spec fn joined(parts: Seq<Seq<char>>) -> Seq<char>
    decreases parts.len(),
{
    if parts.len() == 0 {
        seq![]
    } else if parts.len() == 1 {
        parts[0]
    } else {
        parts[0] + seq!['/'] + joined(parts.skip(1))
    }
}

/// The parts of a path are what its slashes part, empty ones too.
pub proof fn law_a_path_has_the_parts_it_is_made_of(parts: Seq<Seq<char>>)
    requires
        parts.len() > 0,
        forall|i: int| 0 <= i < parts.len() ==> !(#[trigger] parts[i]).contains('/'),
    ensures
        segments(joined(parts)) == parts,
    decreases parts.len(),
{
    assert(!parts[0].contains('/'));
    if parts.len() == 1 {
        lemma_one_segment(parts[0]);
        assert(seq![parts[0]] == parts);
    } else {
        let others = parts.skip(1);
        assert forall|i: int| 0 <= i < others.len() implies !(#[trigger] others[i]).contains(
            '/',
        ) by {
            assert(others[i] == parts[i + 1]);
        }
        law_a_path_has_the_parts_it_is_made_of(others);
        lemma_segments(parts[0], joined(others));
        assert(seq![parts[0]] + others == parts);
    }
}

/// What a target is refused with.
pub open spec fn names_no_column(target: Seq<char>) -> Fault {
    Fault {
        message: str_debug(target) + " is not database/table/column or table/column"@,
        retryable: false,
    }
}

/// A path of another number of parts than two or three names no column and is
/// refused for good: on the configured server, behind an address, and behind
/// either scheme, where a server without a path names none either.
pub proof fn law_a_path_of_other_parts_is_refused(
    transport: TransportView,
    server: Seq<char>,
    parts: Seq<Seq<char>>,
)
    requires
        parts.len() > 0,
        parts.len() != 2,
        parts.len() != 3,
        forall|i: int| 0 <= i < parts.len() ==> !(#[trigger] parts[i]).contains('/'),
        !server.contains('/'),
    ensures
        ({
            let path = joined(parts);
            let placed = server + seq!['/'] + path;
            &&& !parts[0].contains(':') || parts.len() == 1 ==> resolved(transport, path) == Err::<
                DestinationView,
                Fault,
            >(names_no_column(path))
            &&& server.contains(':') && !(scheme_word(server) && parts[0].len() == 0 && parts.len()
                > 1) ==> resolved(transport, placed) == Err::<DestinationView, Fault>(
                names_no_column(placed),
            )
            &&& resolved(transport, "postgresql://"@ + server) == Err::<DestinationView, Fault>(
                names_no_column("postgresql://"@ + server),
            )
            &&& resolved(transport, "postgres://"@ + server) == Err::<DestinationView, Fault>(
                names_no_column("postgres://"@ + server),
            )
            &&& resolved(transport, "postgresql://"@ + placed) == Err::<DestinationView, Fault>(
                names_no_column("postgresql://"@ + placed),
            )
            &&& resolved(transport, "postgres://"@ + placed) == Err::<DestinationView, Fault>(
                names_no_column("postgres://"@ + placed),
            )
        }),
{
    let path = joined(parts);
    let placed = server + seq!['/'] + path;
    law_a_path_has_the_parts_it_is_made_of(parts);
    lemma_split_once(server, '/', path);
    lemma_after_scheme(placed);
    lemma_after_scheme(server);
    server.index_of_first_ensures('/');
    lemma_one_segment(seq![]);
    assert(!parts[0].contains('/'));
    if !(scheme_word(server) && parts[0].len() == 0 && parts.len() > 1) {
        if scheme_word(server) && path.len() > 0 {
            assert(path[0] == parts[0][0]);
            assert(parts[0].contains(parts[0][0]));
        }
        lemma_no_scheme(server, path);
    }
    if parts.len() == 1 {
        lemma_a_word_is_only_a_path(transport.server, path);
    } else if !parts[0].contains(':') {
        lemma_only_a_path(transport.server, parts[0], joined(parts.skip(1)));
    }
}

/// A target without a slash is only a path.
proof fn lemma_a_word_is_only_a_path(server: Seq<char>, word: Seq<char>)
    requires
        !word.contains('/'),
    ensures
        located(server, word) == (server, word),
{
    lemma_schemes();
    word.index_of_first_ensures('/');
    if "postgresql://"@.is_prefix_of(word) {
        assert(word[11] == "postgresql://"@[11]);
        assert(word.contains(word[11]));
    }
    if "postgres://"@.is_prefix_of(word) {
        assert(word[9] == "postgres://"@[9]);
        assert(word.contains(word[9]));
    }
}

} // verus!
