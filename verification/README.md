# transport_postgresql

A PostgreSQL transport, verified with Verus: the frontend/backend protocol 3.0
in its simple query flow. A Receive Location runs a query and each row is a
Stream; a Send Location inserts a Stream as a row; trust and cleartext login.

`src/` is the library. It decides and computes, and it neither reads nor writes
a socket.

- `wire`, `cursor`, `writer`: framing and the protocol's fields.
- `frontend`, `backend`: what a client and a server send, as bytes and back.
- `client`, `session`: either side of a connection, message by message.
- `transport`: what is configured, what a target names, what a send inserts and
  what a receive makes of rows.
- `bytea`, `sql`, `text`: the hex form, the little SQL, and text.
- `arrived`, `error`: a Stream that arrived, and what goes wrong.

The laws that the functions keep are public proof functions named `law_…`, in
`wire`, `frontend`, `backend`, `bytea`, `sql`, `session`, `client` and
`transport`: every message reads back as it was written, what is
quoted unquotes, the login is checked, a query comes back with its answer, and
a Stream that is sent arrives whole.

`app/` puts sockets around the library: it reads as many bytes as
`wire::wanted` asks for, hands each message over, and does what it is told.

Rows are artefacts and this transport claims none of them: the simple flow
opens and closes its connection inside one receive, so there is no transaction
to hold a claim in. The query itself keeps a row from arriving twice.
