//! Streams that arrive as rows. One row is one Stream: the last column of
//! a configured query is what Xmip carries, the first column is where it
//! came from.
//!
//! `PostgreSQL` is the database the estate's partners already have, and a
//! table in it is the oldest integration surface there is: a producer
//! inserts, an integrator polls. A Receive Location runs its query — `SELECT
//! id, payload FROM inbox ORDER BY id` unless told otherwise — and hands
//! each row up; a Send Location inserts the Stream as one column of one
//! row — as text when the Stream is UTF-8 without a NUL, in the bytea hex
//! form otherwise, and a value in that form is the bytes again on the way
//! back (`bytea.rs`). What is spoken is the frontend/backend protocol,
//! version 3.0, in its simple query flow, on port 5432: startup, trust or a
//! cleartext password, `Query`, rows as text, `Terminate`. MD5 and SCRAM are
//! not implemented and a server that asks for them is told so.
//!
//! The library decides and computes; it neither reads nor writes a socket.
//! Its owner does: what a peer sent is handed to [`Client`] or [`Session`],
//! which say what to send and what to do next.
//!
//! The origin URI carries what the row knew:
//! `postgresql://server/orders?row=41`. A send target is
//! `postgresql://host:5432/<database>/<table>/<column>`,
//! `host:5432/<database>/<table>/<column>`, or `<table>/<column>` on the
//! configured server and database.

pub mod arrived;
pub mod backend;
pub mod bytea;
pub mod client;
pub mod cursor;
pub mod error;
pub mod frontend;
pub mod session;
pub mod sql;
pub mod text;
pub mod transport;
pub mod wire;
pub mod writer;

pub use arrived::Arrived;
pub use client::{quote_identifier, quote_literal, Client, QueryResult};
pub use error::TransportError;
pub use session::{Answer, Event, Session};
pub use transport::{PostgresTransport, DEFAULT_QUERY};
