//! What a server sends: the authentication challenge or its absence, the
//! parameters and key it reports at login, the description and rows a
//! query answers with, the tag that completes it, and an error. Written
//! here as well as read, because the far-end [`crate::Session`] writes
//! exactly these.

use vstd::prelude::*;
use vstd::utf8::{encode_utf8, encode_utf8_decode_utf8, encode_utf8_valid_utf8};

use crate::cursor::{
    law_fields_come_off_the_front, law_what_runs_past_is_refused, take, take_byte, take_i32, Cursor,
};
use crate::error::{Fault, TransportError};
use crate::text::{lossy, utf8_lossy};
use crate::wire::{
    count_bytes, cstring_bytes, frame, framed, law_a_text_is_its_utf8_and_a_nul,
    law_a_wire_string_ends_at_its_nul, law_counts_and_lengths, law_frame_reads_back,
    lemma_cstring_consumes, lemma_cstring_reads_back, lemma_i16_reads_back, lemma_i32_reads_back,
    length_bytes, read_typed, take_count, take_cstring, text_read, typed_read, Postgres,
    PostgresWrite, MAX_MESSAGE,
};
use crate::writer::{
    i16_bytes, i32_bytes, law_integers_are_written_high_first, ByteWriter,
};

verus! {

/// What a server sends.
#[derive(Clone, Debug, PartialEq, Eq)]
pub enum Backend {
    /// One of the `AUTH_*` methods, or done.
    Authentication(i32),
    ParameterStatus { name: String, value: String },
    BackendKeyData { process: i32, secret: i32 },
    /// `I` idle, `T` in a transaction, `E` in a failed one.
    ReadyForQuery(u8),
    /// The columns of the rows to come.
    RowDescription(Vec<String>),
    /// One row, each column text or NULL.
    DataRow(Vec<Option<String>>),
    /// `SELECT 3`, `INSERT 0 1`.
    CommandComplete(String),
    EmptyQueryResponse,
    ErrorResponse { severity: String, code: String, message: String },
    /// A message this crate reads past: a notice, a notification.
    Other(u8),
}

/// What a server says, its strings as their characters.
pub enum BackendView {
    Authentication(i32),
    ParameterStatus { name: Seq<char>, value: Seq<char> },
    BackendKeyData { process: i32, secret: i32 },
    ReadyForQuery(u8),
    RowDescription(Seq<Seq<char>>),
    DataRow(Seq<Option<Seq<char>>>),
    CommandComplete(Seq<char>),
    EmptyQueryResponse,
    ErrorResponse { severity: Seq<char>, code: Seq<char>, message: Seq<char> },
    Other(u8),
}

impl View for Backend {
    type V = BackendView;

    open spec fn view(&self) -> BackendView {
        match *self {
            Backend::Authentication(method) => BackendView::Authentication(method),
            Backend::ParameterStatus { name, value } => BackendView::ParameterStatus {
                name: name@,
                value: value@,
            },
            Backend::BackendKeyData { process, secret } => BackendView::BackendKeyData {
                process,
                secret,
            },
            Backend::ReadyForQuery(status) => BackendView::ReadyForQuery(status),
            Backend::RowDescription(columns) => BackendView::RowDescription(columns.deep_view()),
            Backend::DataRow(values) => BackendView::DataRow(values.deep_view()),
            Backend::CommandComplete(tag) => BackendView::CommandComplete(tag@),
            Backend::EmptyQueryResponse => BackendView::EmptyQueryResponse,
            Backend::ErrorResponse { severity, code, message } => BackendView::ErrorResponse {
                severity: severity@,
                code: code@,
                message: message@,
            },
            Backend::Other(kind) => BackendView::Other(kind),
        }
    }
}

impl DeepView for Backend {
    type V = BackendView;

    open spec fn deep_view(&self) -> BackendView {
        self@
    }
}

/// How a column is described: its name, and that it is text of any length
/// in the text format, of no table.
pub open spec fn described_column(name: Seq<char>) -> Seq<u8> {
    cstring_bytes(name) + i32_bytes(0) + i16_bytes(0) + i32_bytes(25) + i16_bytes(-1) + i32_bytes(
        -1,
    ) + i16_bytes(0)
}

/// How a value stands in a row: its length and its UTF-8, or minus one for
/// NULL.
pub open spec fn row_value(value: Option<Seq<char>>) -> Seq<u8> {
    match value {
        Some(text) => length_bytes(encode_utf8(text).len()) + encode_utf8(text),
        None => i32_bytes(-1),
    }
}

/// One field of an error: its letter and its text.
pub open spec fn error_field(letter: u8, text: Seq<char>) -> Seq<u8> {
    seq![letter] + cstring_bytes(text)
}

/// The type byte of a message.
pub open spec fn backend_kind(message: BackendView) -> u8 {
    match message {
        BackendView::Authentication(_) => 'R' as u8,
        BackendView::ParameterStatus { .. } => 'S' as u8,
        BackendView::BackendKeyData { .. } => 'K' as u8,
        BackendView::ReadyForQuery(_) => 'Z' as u8,
        BackendView::RowDescription(_) => 'T' as u8,
        BackendView::DataRow(_) => 'D' as u8,
        BackendView::CommandComplete(_) => 'C' as u8,
        BackendView::EmptyQueryResponse => 'I' as u8,
        BackendView::ErrorResponse { .. } => 'E' as u8,
        BackendView::Other(kind) => kind,
    }
}

/// The body of a message.
pub open spec fn backend_body(message: BackendView) -> Seq<u8> {
    match message {
        BackendView::Authentication(method) => i32_bytes(method as int),
        BackendView::ParameterStatus { name, value } => cstring_bytes(name) + cstring_bytes(value),
        BackendView::BackendKeyData { process, secret } => i32_bytes(process as int) + i32_bytes(
            secret as int,
        ),
        BackendView::ReadyForQuery(status) => seq![status],
        BackendView::RowDescription(columns) => count_bytes(columns.len()) + columns.map_values(
            |name: Seq<char>| described_column(name),
        ).flatten(),
        BackendView::DataRow(values) => count_bytes(values.len()) + values.map_values(
            |value: Option<Seq<char>>| row_value(value),
        ).flatten(),
        BackendView::CommandComplete(tag) => cstring_bytes(tag),
        BackendView::EmptyQueryResponse => seq![],
        BackendView::ErrorResponse { severity, code, message } => error_field('S' as u8, severity)
            + error_field('V' as u8, severity) + error_field('C' as u8, code) + error_field(
            'M' as u8,
            message,
        ) + seq![0u8],
        BackendView::Other(_) => seq![],
    }
}

/// A message as it is on the wire.
pub open spec fn backend_bytes(message: BackendView) -> Seq<u8> {
    framed(Some(backend_kind(message)), backend_body(message))
}

/// `message` as bytes on the wire.
#[must_use]
pub fn encode_backend(message: &Backend) -> (bytes: Vec<u8>)
    ensures
        bytes@ == backend_bytes(message@),
{
    let mut body: Vec<u8> = Vec::new();
    let kind: u8 = match message {
        Backend::Authentication(method) => {
            body.i32_be(*method);
            'R' as u8
        },
        Backend::ParameterStatus { name, value } => {
            body.cstring(name.as_str()).cstring(value.as_str());
            'S' as u8
        },
        Backend::BackendKeyData { process, secret } => {
            body.i32_be(*process).i32_be(*secret);
            'K' as u8
        },
        Backend::ReadyForQuery(status) => {
            body.push(*status);
            'Z' as u8
        },
        Backend::RowDescription(columns) => {
            write_columns(&mut body, columns);
            'T' as u8
        },
        Backend::DataRow(values) => {
            write_values(&mut body, values);
            'D' as u8
        },
        Backend::CommandComplete(tag) => {
            body.cstring(tag.as_str());
            'C' as u8
        },
        Backend::EmptyQueryResponse => 'I' as u8,
        Backend::ErrorResponse { severity, code, message } => {
            body.byte('S' as u8).cstring(severity.as_str());
            body.byte('V' as u8).cstring(severity.as_str());
            body.byte('C' as u8).cstring(code.as_str());
            body.byte('M' as u8).cstring(message.as_str());
            body.push(0);
            'E' as u8
        },
        Backend::Other(kind) => *kind,
    };
    assert(body@ == backend_body(message@));
    frame(Some(kind), body.as_slice())
}

/// The columns of the rows to come, counted and described.
fn write_columns(body: &mut Vec<u8>, columns: &Vec<String>)
    ensures
        final(body)@ == old(body)@ + count_bytes(columns@.len()) + columns.deep_view().map_values(
            |name: Seq<char>| described_column(name),
        ).flatten(),
{
    body.count(columns.len());
    let ghost written = columns.deep_view().map_values(|name: Seq<char>| described_column(name));
    let mut at: usize = 0;
    while at < columns.len()
        invariant
            at <= columns@.len(),
            written == columns.deep_view().map_values(|name: Seq<char>| described_column(name)),
            body@ == old(body)@ + count_bytes(columns@.len()) + written.take(at as int).flatten(),
        decreases columns@.len() - at,
    {
        body.cstring(columns[at].as_str()).i32_be(0)  // table
        .i16_be(0)  // attribute
        .i32_be(25)  // text
        .i16_be(-1)  // varlena
        .i32_be(-1)  // no modifier
        .i16_be(0);  // text format
        proof {
            written.take(at as int).lemma_flatten_push(written[at as int]);
            assert(written.take(at + 1) == written.take(at as int).push(written[at as int]));
        }
        at = at + 1;
    }
    assert(written.take(at as int) == written);
}

/// One row, its values counted, each behind its length.
fn write_values(body: &mut Vec<u8>, values: &Vec<Option<String>>)
    ensures
        final(body)@ == old(body)@ + count_bytes(values@.len()) + values.deep_view().map_values(
            |value: Option<Seq<char>>| row_value(value),
        ).flatten(),
{
    body.count(values.len());
    let ghost written = values.deep_view().map_values(
        |value: Option<Seq<char>>| row_value(value),
    );
    let mut at: usize = 0;
    while at < values.len()
        invariant
            at <= values@.len(),
            written == values.deep_view().map_values(
                |value: Option<Seq<char>>| row_value(value),
            ),
            body@ == old(body)@ + count_bytes(values@.len()) + written.take(at as int).flatten(),
        decreases values@.len() - at,
    {
        match &values[at] {
            Some(text) => {
                let bytes = text.as_str().as_bytes();
                body.length(bytes.len()).bytes(bytes);
            },
            None => {
                body.i32_be(-1);
            },
        }
        proof {
            written.take(at as int).lemma_flatten_push(written[at as int]);
            assert(written.take(at + 1) == written.take(at as int).push(written[at as int]));
        }
        at = at + 1;
    }
    assert(written.take(at as int) == written);
}

/// `count` things read one after another, each as `item` reads one.
pub open spec fn take_items<T>(
    count: nat,
    bytes: Seq<u8>,
    item: spec_fn(Seq<u8>) -> Result<(T, Seq<u8>), Fault>,
) -> Result<(Seq<T>, Seq<u8>), Fault>
    decreases count,
{
    if count == 0 {
        Ok((seq![], bytes))
    } else {
        match item(bytes) {
            Ok((first, rest)) => after(seq![first], take_items((count - 1) as nat, rest, item)),
            Err(fault) => Err(fault),
        }
    }
}

/// What was read, behind what had been read `before`.
pub open spec fn after<T>(before: Seq<T>, read: Result<(Seq<T>, Seq<u8>), Fault>) -> Result<
    (Seq<T>, Seq<u8>),
    Fault,
> {
    match read {
        Ok((items, rest)) => Ok((before + items, rest)),
        Err(fault) => Err(fault),
    }
}

/// Reading goes on where it was left.
proof fn lemma_after_after<T>(
    before: Seq<T>,
    first: Seq<T>,
    read: Result<(Seq<T>, Seq<u8>), Fault>,
)
    ensures
        after(before, after(first, read)) == after(before + first, read),
{
    if let Ok((items, _)) = read {
        assert(before + (first + items) == before + first + items);
    }
}

/// A described column: its name, and past the eighteen bytes that say what
/// it is.
pub open spec fn take_column() -> spec_fn(Seq<u8>) -> Result<(Seq<char>, Seq<u8>), Fault> {
    |bytes: Seq<u8>|
        match take_cstring(bytes) {
            Ok((name, rest)) => match take(rest, 18) {
                Ok((_, rest)) => Ok((name, rest)),
                Err(fault) => Err(fault),
            },
            Err(fault) => Err(fault),
        }
}

/// A value of a row: as long as its length says, lossily UTF-8, or NULL
/// where that is negative.
pub open spec fn take_value() -> spec_fn(Seq<u8>) -> Result<(Option<Seq<char>>, Seq<u8>), Fault> {
    |bytes: Seq<u8>|
        match take_i32(bytes) {
            Ok((length, rest)) => if length < 0 {
                Ok((None, rest))
            } else {
                match take(rest, length as nat) {
                    Ok((text, rest)) => Ok((Some(utf8_lossy(text)), rest)),
                    Err(fault) => Err(fault),
                }
            },
            Err(fault) => Err(fault),
        }
}

/// The fields of an error up to the zero that ends them. Of the fields with
/// one letter the last counts; `severity`, `code` and `message` are what
/// they are where none follows.
pub open spec fn take_error(
    bytes: Seq<u8>,
    severity: Seq<char>,
    code: Seq<char>,
    message: Seq<char>,
) -> Result<BackendView, Fault>
    decreases bytes.len(),
{
    match take_byte(bytes) {
        Ok((letter, rest)) => if letter == 0 {
            Ok(BackendView::ErrorResponse { severity, code, message })
        } else {
            match take_cstring(rest) {
                Ok((text, rest)) => {
                    proof {
                        lemma_cstring_consumes(bytes.skip(1));
                    }
                    take_error(
                        rest,
                        if letter == 'S' as u8 {
                            text
                        } else {
                            severity
                        },
                        if letter == 'C' as u8 {
                            text
                        } else {
                            code
                        },
                        if letter == 'M' as u8 {
                            text
                        } else {
                            message
                        },
                    )
                },
                Err(fault) => Err(fault),
            }
        },
        Err(fault) => Err(fault),
    }
}

/// What a message of the type `kind` with this body says. Bytes behind its
/// last field are not looked at.
pub open spec fn backend_of(kind: u8, body: Seq<u8>) -> Result<BackendView, Fault> {
    if kind == 'R' as u8 {
        match take_i32(body) {
            Ok((method, _)) => Ok(BackendView::Authentication(method as i32)),
            Err(fault) => Err(fault),
        }
    } else if kind == 'S' as u8 {
        match take_cstring(body) {
            Ok((name, rest)) => match take_cstring(rest) {
                Ok((value, _)) => Ok(BackendView::ParameterStatus { name, value }),
                Err(fault) => Err(fault),
            },
            Err(fault) => Err(fault),
        }
    } else if kind == 'K' as u8 {
        match take_i32(body) {
            Ok((process, rest)) => match take_i32(rest) {
                Ok((secret, _)) => Ok(
                    BackendView::BackendKeyData { process: process as i32, secret: secret as i32 },
                ),
                Err(fault) => Err(fault),
            },
            Err(fault) => Err(fault),
        }
    } else if kind == 'Z' as u8 {
        match take_byte(body) {
            Ok((status, _)) => Ok(BackendView::ReadyForQuery(status)),
            Err(fault) => Err(fault),
        }
    } else if kind == 'T' as u8 {
        match take_count(body) {
            Ok((count, rest)) => match take_items(count, rest, take_column()) {
                Ok((columns, _)) => Ok(BackendView::RowDescription(columns)),
                Err(fault) => Err(fault),
            },
            Err(fault) => Err(fault),
        }
    } else if kind == 'D' as u8 {
        match take_count(body) {
            Ok((count, rest)) => match take_items(count, rest, take_value()) {
                Ok((values, _)) => Ok(BackendView::DataRow(values)),
                Err(fault) => Err(fault),
            },
            Err(fault) => Err(fault),
        }
    } else if kind == 'C' as u8 {
        match take_cstring(body) {
            Ok((tag, _)) => Ok(BackendView::CommandComplete(tag)),
            Err(fault) => Err(fault),
        }
    } else if kind == 'I' as u8 {
        Ok(BackendView::EmptyQueryResponse)
    } else if kind == 'E' as u8 {
        take_error(body, seq![], seq![], seq![])
    } else {
        Ok(BackendView::Other(kind))
    }
}

/// What comes of reading one message off all that a server sent before it
/// closed, and what is left unread then.
pub open spec fn backend_read(bytes: Seq<u8>) -> (Result<Option<BackendView>, Fault>, Seq<u8>) {
    let (typed, rest) = typed_read(bytes);
    let read = match typed {
        Ok(Some((kind, body))) => match backend_of(kind, body) {
            Ok(message) => Ok(Some(message)),
            Err(fault) => Err(fault),
        },
        Ok(None) => Ok(None),
        Err(fault) => Err(fault),
    };
    (read, rest)
}

/// Read one message from a server, or `None` when it closed. `reader` is all
/// that the server sent before it closed.
///
/// # Errors
/// A message that breaks off.
pub fn read_backend(reader: &mut &[u8]) -> (message: Result<Option<Backend>, TransportError>)
    ensures
        final(reader)@ == backend_read(old(reader)@).1,
        match backend_read(old(reader)@).0 {
            Ok(Some(said)) => message matches Ok(Some(m)) && m@ == said,
            Ok(None) => message matches Ok(None),
            Err(fault) => message matches Err(e) && e@ == fault,
        },
{
    match read_typed(reader) {
        Ok(Some((kind, body))) => match decode_backend(kind, body.as_slice()) {
            Ok(message) => Ok(Some(message)),
            Err(error) => Err(error),
        },
        Ok(None) => Ok(None),
        Err(error) => Err(error),
    }
}

/// What a message of the type `kind` with this `body` says.
///
/// # Errors
/// A body that breaks off.
pub fn decode_backend(kind: u8, body: &[u8]) -> (message: Result<Backend, TransportError>)
    ensures
        match backend_of(kind, body@) {
            Ok(said) => message matches Ok(m) && m@ == said,
            Err(fault) => message matches Err(e) && e@ == fault,
        },
{
    let mut cursor = Cursor::new(body);
    if kind == 'R' as u8 {
        Ok(Backend::Authentication(cursor.i32_be()?))
    } else if kind == 'S' as u8 {
        let name = cursor.cstring()?;
        let value = cursor.cstring()?;
        Ok(Backend::ParameterStatus { name, value })
    } else if kind == 'K' as u8 {
        let process = cursor.i32_be()?;
        let secret = cursor.i32_be()?;
        Ok(Backend::BackendKeyData { process, secret })
    } else if kind == 'Z' as u8 {
        Ok(Backend::ReadyForQuery(cursor.byte()?))
    } else if kind == 'T' as u8 {
        let count = cursor.count()?;
        Ok(Backend::RowDescription(read_columns(&mut cursor, count)?))
    } else if kind == 'D' as u8 {
        let count = cursor.count()?;
        Ok(Backend::DataRow(read_values(&mut cursor, count)?))
    } else if kind == 'C' as u8 {
        Ok(Backend::CommandComplete(cursor.cstring()?))
    } else if kind == 'I' as u8 {
        Ok(Backend::EmptyQueryResponse)
    } else if kind == 'E' as u8 {
        read_error(&mut cursor)
    } else {
        Ok(Backend::Other(kind))
    }
}

/// `count` described columns by their names.
fn read_columns(cursor: &mut Cursor, count: usize) -> (columns: Result<
    Vec<String>,
    TransportError,
>)
    ensures
        match take_items(count as nat, old(cursor)@, take_column()) {
            Ok((names, rest)) => columns matches Ok(c) && c.deep_view() == names && final(cursor)@
                == rest,
            Err(fault) => columns matches Err(e) && e@ == fault,
        },
{
    let mut columns: Vec<String> = Vec::new();
    let mut left: usize = count;
    while left > 0
        invariant
            take_items(count as nat, old(cursor)@, take_column()) == after(
                columns.deep_view(),
                take_items(left as nat, cursor@, take_column()),
            ),
        decreases left,
    {
        let ghost before = columns.deep_view();
        let name = cursor.cstring()?;
        cursor.skip(18)?;
        let ghost text = name@;
        columns.push(name);
        left = left - 1;
        proof {
            assert(columns.deep_view() == before + seq![text]);
            lemma_after_after(
                before,
                seq![text],
                take_items(left as nat, cursor@, take_column()),
            );
        }
    }
    Ok(columns)
}

/// `count` values of a row.
fn read_values(cursor: &mut Cursor, count: usize) -> (values: Result<
    Vec<Option<String>>,
    TransportError,
>)
    ensures
        match take_items(count as nat, old(cursor)@, take_value()) {
            Ok((texts, rest)) => values matches Ok(v) && v.deep_view() == texts && final(cursor)@
                == rest,
            Err(fault) => values matches Err(e) && e@ == fault,
        },
{
    let mut values: Vec<Option<String>> = Vec::new();
    let mut left: usize = count;
    while left > 0
        invariant
            take_items(count as nat, old(cursor)@, take_value()) == after(
                values.deep_view(),
                take_items(left as nat, cursor@, take_value()),
            ),
        decreases left,
    {
        let ghost before = values.deep_view();
        let length = cursor.i32_be()?;
        let value = if length < 0 {
            None
        } else {
            Some(lossy(cursor.take(length as usize)?))
        };
        let ghost text = value.deep_view();
        values.push(value);
        left = left - 1;
        proof {
            assert(values.deep_view() == before + seq![text]);
            lemma_after_after(before, seq![text], take_items(left as nat, cursor@, take_value()));
        }
    }
    Ok(values)
}

/// The fields of an error, those this crate reads kept.
fn read_error(cursor: &mut Cursor) -> (message: Result<Backend, TransportError>)
    ensures
        match take_error(old(cursor)@, seq![], seq![], seq![]) {
            Ok(said) => message matches Ok(m) && m@ == said,
            Err(fault) => message matches Err(e) && e@ == fault,
        },
{
    let mut severity = String::new();
    let mut code = String::new();
    let mut message = String::new();
    loop
        invariant
            take_error(old(cursor)@, seq![], seq![], seq![]) == take_error(
                cursor@,
                severity@,
                code@,
                message@,
            ),
        decreases cursor@.len(),
    {
        let letter: u8 = cursor.byte()?;
        if letter == 0 {
            return Ok(Backend::ErrorResponse { severity, code, message });
        }
        proof {
            lemma_cstring_consumes(cursor@);
        }
        let text = cursor.cstring()?;
        if letter == 'S' as u8 {
            severity = text;
        } else if letter == 'C' as u8 {
            code = text;
        } else if letter == 'M' as u8 {
            message = text;
        }
    }
}

/// Whether `kind` is a type byte that this crate reads.
pub open spec fn known_kind(kind: u8) -> bool {
    seq!['R', 'S', 'K', 'Z', 'T', 'D', 'C', 'I', 'E'].contains(kind as char)
}

/// Whether a message can be told apart on the wire: no wire string has a NUL
/// in it, the items are no more than can be counted, the length is no more
/// than is read, and a message that is read past has a type of its own.
pub open spec fn backend_sendable(message: BackendView) -> bool {
    &&& backend_body(message).len() + 4 <= MAX_MESSAGE
    &&& match message {
        BackendView::ParameterStatus { name, value } => !name.contains('\0') && !value.contains(
            '\0',
        ),
        BackendView::RowDescription(columns) => columns.len() <= i16::MAX && forall|i: int|
            0 <= i < columns.len() ==> !(#[trigger] columns[i]).contains('\0'),
        BackendView::DataRow(values) => values.len() <= i16::MAX,
        BackendView::CommandComplete(tag) => !tag.contains('\0'),
        BackendView::ErrorResponse { severity, code, message } => !severity.contains('\0')
            && !code.contains('\0') && !message.contains('\0'),
        BackendView::Other(kind) => !known_kind(kind),
        _ => true,
    }
}

/// Things that each read back, whatever follows them, read back one after
/// another.
proof fn lemma_items_read_back<T>(
    items: Seq<T>,
    written: spec_fn(T) -> Seq<u8>,
    item: spec_fn(Seq<u8>) -> Result<(T, Seq<u8>), Fault>,
    rest: Seq<u8>,
)
    requires
        forall|i: int, tail: Seq<u8>|
            0 <= i < items.len() ==> item(#[trigger] (written(items[i]) + tail)) == Ok::<_, Fault>(
                (items[i], tail),
            ),
    ensures
        take_items(items.len(), items.map_values(written).flatten() + rest, item) == Ok::<
            _,
            Fault,
        >((items, rest)),
    decreases items.len(),
{
    let bytes = items.map_values(written).flatten() + rest;
    if items.len() == 0 {
        assert(bytes == rest);
        assert(items == Seq::<T>::empty());
    } else {
        let others = items.drop_first();
        let tail = others.map_values(written).flatten() + rest;
        assert(items.map_values(written).drop_first() == others.map_values(written));
        assert(bytes == written(items[0]) + tail);
        assert forall|i: int, after: Seq<u8>| 0 <= i < others.len() implies item(
            #[trigger] (written(others[i]) + after),
        ) == Ok::<_, Fault>((others[i], after)) by {
            assert(others[i] == items[i + 1]);
            assert(item(written(items[i + 1]) + after) == Ok::<_, Fault>((items[i + 1], after)));
        }
        lemma_items_read_back(others, written, item, rest);
        assert(seq![items[0]] + others == items);
    }
}

/// A described column reads back by its name.
proof fn lemma_column_reads_back(name: Seq<char>, rest: Seq<u8>)
    requires
        !name.contains('\0'),
    ensures
        take_column()(described_column(name) + rest) == Ok::<_, Fault>((name, rest)),
{
    let described = i32_bytes(0) + i16_bytes(0) + i32_bytes(25) + i16_bytes(-1) + i32_bytes(-1)
        + i16_bytes(0);
    assert(described_column(name) + rest == cstring_bytes(name) + (described + rest));
    lemma_cstring_reads_back(name, described + rest);
    assert((described + rest).skip(18) == rest);
}

/// A value of a row reads back, whatever its text holds.
proof fn lemma_value_reads_back(value: Option<Seq<char>>, rest: Seq<u8>)
    requires
        value matches Some(text) ==> encode_utf8(text).len() <= i32::MAX,
    ensures
        take_value()(row_value(value) + rest) == Ok::<_, Fault>((value, rest)),
{
    match value {
        Some(text) => {
            let utf8 = encode_utf8(text);
            assert(row_value(value) + rest == i32_bytes(utf8.len() as int) + (utf8 + rest));
            lemma_i32_reads_back(utf8.len() as int, utf8 + rest);
            assert((utf8 + rest).take(utf8.len() as int) == utf8);
            assert((utf8 + rest).skip(utf8.len() as int) == rest);
            encode_utf8_valid_utf8(text);
            encode_utf8_decode_utf8(text);
        },
        None => {
            lemma_i32_reads_back(-1, rest);
        },
    }
}

/// A description of columns reads back.
proof fn lemma_columns_read_back(columns: Seq<Seq<char>>)
    requires
        backend_sendable(BackendView::RowDescription(columns)),
    ensures
        backend_of('T' as u8, backend_body(BackendView::RowDescription(columns))) == Ok::<
            _,
            Fault,
        >(BackendView::RowDescription(columns)),
{
    let none = Seq::<u8>::empty();
    let written = |name: Seq<char>| described_column(name);
    let described = columns.map_values(written).flatten();
    lemma_i16_reads_back(columns.len() as int, described);
    assert forall|i: int, tail: Seq<u8>| 0 <= i < columns.len() implies take_column()(
        #[trigger] (written(columns[i]) + tail),
    ) == Ok::<_, Fault>((columns[i], tail)) by {
        lemma_column_reads_back(columns[i], tail);
    }
    lemma_items_read_back(columns, written, take_column(), none);
    assert(described + none == described);
}

/// A row reads back.
proof fn lemma_row_reads_back(values: Seq<Option<Seq<char>>>)
    requires
        backend_sendable(BackendView::DataRow(values)),
    ensures
        backend_of('D' as u8, backend_body(BackendView::DataRow(values))) == Ok::<_, Fault>(
            BackendView::DataRow(values),
        ),
{
    let none = Seq::<u8>::empty();
    let written = |value: Option<Seq<char>>| row_value(value);
    let each = values.map_values(written);
    let row = each.flatten();
    lemma_i16_reads_back(values.len() as int, row);
    assert forall|i: int, tail: Seq<u8>| 0 <= i < values.len() implies take_value()(
        #[trigger] (written(values[i]) + tail),
    ) == Ok::<_, Fault>((values[i], tail)) by {
        each.lemma_flatten_length_ge_single_element_length(i);
        each.lemma_flatten_and_flatten_alt_are_equivalent();
        assert(each[i] == row_value(values[i]));
        lemma_value_reads_back(values[i], tail);
    }
    lemma_items_read_back(values, written, take_value(), none);
    assert(row + none == row);
}

/// The fields of an error read back.
proof fn lemma_error_reads_back(severity: Seq<char>, code: Seq<char>, message: Seq<char>)
    requires
        !severity.contains('\0'),
        !code.contains('\0'),
        !message.contains('\0'),
    ensures
        take_error(
            backend_body(BackendView::ErrorResponse { severity, code, message }),
            seq![],
            seq![],
            seq![],
        ) == Ok::<_, Fault>(BackendView::ErrorResponse { severity, code, message }),
{
    let none = Seq::<char>::empty();
    let end = seq![0u8];
    let m = error_field('M' as u8, message) + end;
    let c = error_field('C' as u8, code) + m;
    let v = error_field('V' as u8, severity) + c;
    let s = error_field('S' as u8, severity) + v;
    assert(backend_body(BackendView::ErrorResponse { severity, code, message }) == s);
    lemma_error_field('S' as u8, severity, v, none, none, none);
    lemma_error_field('V' as u8, severity, c, severity, none, none);
    lemma_error_field('C' as u8, code, m, severity, none, none);
    lemma_error_field('M' as u8, message, end, severity, code, none);
    assert(end.take(1)[0] == 0);
}

/// One field of an error is read and the others follow.
proof fn lemma_error_field(
    letter: u8,
    text: Seq<char>,
    rest: Seq<u8>,
    severity: Seq<char>,
    code: Seq<char>,
    message: Seq<char>,
)
    requires
        letter != 0,
        !text.contains('\0'),
    ensures
        take_error(error_field(letter, text) + rest, severity, code, message) == take_error(
            rest,
            if letter == 'S' as u8 {
                text
            } else {
                severity
            },
            if letter == 'C' as u8 {
                text
            } else {
                code
            },
            if letter == 'M' as u8 {
                text
            } else {
                message
            },
        ),
{
    let bytes = error_field(letter, text) + rest;
    assert(bytes.take(1)[0] == letter);
    assert(bytes.skip(1) == cstring_bytes(text) + rest);
    lemma_cstring_reads_back(text, rest);
}

/// What a server sends reads back as what was said, and no byte of what
/// follows it is read.
pub proof fn law_backend_reads_back(message: BackendView, rest: Seq<u8>)
    requires
        backend_sendable(message),
    ensures
        backend_read(backend_bytes(message) + rest) == (
            Ok::<Option<BackendView>, Fault>(Some(message)),
            rest,
        ),
{
    let body = backend_body(message);
    law_frame_reads_back(backend_kind(message), body, rest);
    let none = Seq::<u8>::empty();
    assert(body + none == body);
    match message {
        BackendView::Authentication(method) => {
            lemma_i32_reads_back(method as int, none);
        },
        BackendView::ParameterStatus { name, value } => {
            lemma_cstring_reads_back(name, cstring_bytes(value));
            lemma_cstring_reads_back(value, none);
            assert(cstring_bytes(value) + none == cstring_bytes(value));
        },
        BackendView::BackendKeyData { process, secret } => {
            lemma_i32_reads_back(process as int, i32_bytes(secret as int));
            lemma_i32_reads_back(secret as int, none);
            assert(i32_bytes(secret as int) + none == i32_bytes(secret as int));
        },
        BackendView::RowDescription(columns) => {
            lemma_columns_read_back(columns);
        },
        BackendView::DataRow(values) => {
            lemma_row_reads_back(values);
        },
        BackendView::CommandComplete(tag) => {
            lemma_cstring_reads_back(tag, none);
        },
        BackendView::ErrorResponse { severity, code, message } => {
            lemma_error_reads_back(severity, code, message);
        },
        BackendView::Other(kind) => {
            let kinds = seq!['R', 'S', 'K', 'Z', 'T', 'D', 'C', 'I', 'E'];
            assert(kinds[0] == 'R' && kinds[1] == 'S' && kinds[2] == 'K' && kinds[3] == 'Z'
                && kinds[4] == 'T' && kinds[5] == 'D' && kinds[6] == 'C' && kinds[7] == 'I'
                && kinds[8] == 'E');
        },
        _ => {},
    }
}

/// Messages as they are on the wire, one after another.
pub open spec fn backend_stream(messages: Seq<BackendView>) -> Seq<u8> {
    messages.map_values(|message: BackendView| backend_bytes(message)).flatten()
}

/// Messages that are sent one after another are read one after another: the
/// first is what comes next, and the others are what is left.
pub proof fn law_backend_stream_reads_back(messages: Seq<BackendView>, rest: Seq<u8>)
    requires
        messages.len() > 0,
        backend_sendable(messages[0]),
    ensures
        backend_read(backend_stream(messages) + rest) == (
            Ok::<Option<BackendView>, Fault>(Some(messages[0])),
            backend_stream(messages.skip(1)) + rest,
        ),
{
    let others = messages.skip(1);
    let each = messages.map_values(|message: BackendView| backend_bytes(message));
    assert(each.drop_first() == others.map_values(|message: BackendView| backend_bytes(message)));
    assert(backend_stream(messages) + rest == backend_bytes(messages[0]) + (backend_stream(others)
        + rest));
    law_backend_reads_back(messages[0], backend_stream(others) + rest);
}

/// The bytes of columns as a server describes them: each its name, a NUL and
/// what is said of it.
pub open spec fn columns_described(names: Seq<Seq<char>>, described: Seq<Seq<u8>>) -> Seq<u8> {
    Seq::new(names.len(), |i: int| encode_utf8(names[i]) + seq![0u8] + described[i]).flatten()
}

/// Columns read by their names, whatever is said of them.
proof fn lemma_any_columns_read(
    names: Seq<Seq<char>>,
    described: Seq<Seq<u8>>,
    rest: Seq<u8>,
)
    requires
        described.len() == names.len(),
        forall|i: int| 0 <= i < names.len() ==> !(#[trigger] names[i]).contains('\0'),
        forall|i: int| 0 <= i < names.len() ==> (#[trigger] described[i]).len() == 18,
    ensures
        take_items(names.len(), columns_described(names, described) + rest, take_column()) == Ok::<
            _,
            Fault,
        >((names, rest)),
    decreases names.len(),
{
    let bytes = columns_described(names, described) + rest;
    if names.len() == 0 {
        assert(bytes == rest);
        assert(names == Seq::<Seq<char>>::empty());
    } else {
        let others = names.skip(1);
        let behind = columns_described(others, described.skip(1)) + rest;
        let each = Seq::new(
            names.len(),
            |i: int| encode_utf8(names[i]) + seq![0u8] + described[i],
        );
        assert(each.drop_first() == Seq::new(
            others.len(),
            |i: int| encode_utf8(others[i]) + seq![0u8] + described.skip(1)[i],
        ));
        assert(bytes == encode_utf8(names[0]) + seq![0u8] + (described[0] + behind));
        assert forall|i: int| 0 <= i < others.len() implies !(#[trigger] others[i]).contains(
            '\0',
        ) by {
            assert(others[i] == names[i + 1]);
        }
        assert forall|i: int| 0 <= i < others.len() implies (#[trigger] described.skip(1)[i]).len()
            == 18 by {
            assert(described.skip(1)[i] == described[i + 1]);
        }
        law_a_text_is_its_utf8_and_a_nul(names[0], described[0] + behind);
        law_fields_come_off_the_front(described[0], behind);
        lemma_any_columns_read(others, described.skip(1), rest);
        assert(seq![names[0]] + others == names);
    }
}

/// A description of columns reads as their names, whatever the eighteen bytes
/// behind each name say: of which table it is, of which type, of which size.
pub proof fn law_columns_read_by_their_names(
    count: Seq<u8>,
    names: Seq<Seq<char>>,
    described: Seq<Seq<u8>>,
    extra: Seq<u8>,
)
    requires
        count.len() == 2,
        count[0] * 0x100 + count[1] == names.len(),
        names.len() < 0x8000,
        described.len() == names.len(),
        forall|i: int| 0 <= i < names.len() ==> !(#[trigger] names[i]).contains('\0'),
        forall|i: int| 0 <= i < names.len() ==> (#[trigger] described[i]).len() == 18,
    ensures
        backend_of('T' as u8, count + (columns_described(names, described) + extra)) == Ok::<
            _,
            Fault,
        >(BackendView::RowDescription(names)),
{
    law_counts_and_lengths(count, columns_described(names, described) + extra, 0);
    lemma_any_columns_read(names, described, extra);
}

/// One described column reads as its name and leaves just what follows its
/// eighteen bytes, whatever they are.
pub proof fn law_a_column_is_its_name_and_eighteen_bytes(
    name: Seq<char>,
    bytes: Seq<u8>,
    described: Seq<u8>,
    rest: Seq<u8>,
)
    requires
        !name.contains('\0'),
        !bytes.contains(0),
        described.len() == 18,
    ensures
        take_column()(encode_utf8(name) + seq![0u8] + (described + rest)) == Ok::<_, Fault>(
            (name, rest),
        ),
        take_column()(bytes + seq![0u8] + (described + rest)) == Ok::<_, Fault>(
            (text_read(bytes), rest),
        ),
{
    law_a_text_is_its_utf8_and_a_nul(name, described + rest);
    law_a_wire_string_ends_at_its_nul(bytes, described + rest);
    law_fields_come_off_the_front(described, rest);
}

/// The number that four bytes stand for, the first counting most.
pub open spec fn word_of(field: Seq<u8>) -> int {
    field[0] * 0x100_0000 + field[1] * 0x1_0000 + field[2] * 0x100 + field[3]
}

/// Whether a value is written as the protocol has it: its length in four
/// bytes and as many bytes, or no bytes behind a length that is negative.
pub open spec fn value_written(value: (Seq<u8>, Seq<u8>)) -> bool {
    &&& value.0.len() == 4
    &&& value.1.len() == if word_of(value.0) < 0x8000_0000 { word_of(value.0) } else { 0 }
}

/// The bytes of values as a server sends them, each its length and its bytes.
pub open spec fn values_written(values: Seq<(Seq<u8>, Seq<u8>)>) -> Seq<u8> {
    values.map_values(|value: (Seq<u8>, Seq<u8>)| value.0 + value.1).flatten()
}

/// Whether a text is what a value reads as: none where its length is negative,
/// and otherwise what its bytes read as.
pub open spec fn value_reads_as(value: (Seq<u8>, Seq<u8>), text: Option<Seq<char>>) -> bool {
    if word_of(value.0) < 0x8000_0000 {
        text == Some(text_read(value.1))
    } else {
        text is None
    }
}

/// Values read one after another.
proof fn lemma_any_values_read(values: Seq<(Seq<u8>, Seq<u8>)>, rest: Seq<u8>)
    requires
        forall|i: int| 0 <= i < values.len() ==> value_written(#[trigger] values[i]),
    ensures
        take_items(values.len(), values_written(values) + rest, take_value()) matches Ok(
            (texts, left),
        ) && left == rest && texts.len() == values.len() && forall|i: int|
            0 <= i < values.len() ==> value_reads_as(values[i], #[trigger] texts[i]),
    decreases values.len(),
{
    let bytes = values_written(values) + rest;
    if values.len() == 0 {
        assert(bytes == rest);
    } else {
        let others = values.skip(1);
        let behind = values_written(others) + rest;
        let first = values[0];
        let each = values.map_values(|value: (Seq<u8>, Seq<u8>)| value.0 + value.1);
        assert(each.drop_first() == others.map_values(
            |value: (Seq<u8>, Seq<u8>)| value.0 + value.1,
        ));
        assert(value_written(first));
        assert(bytes == first.0 + (first.1 + behind));
        law_fields_come_off_the_front(first.0, first.1 + behind);
        law_fields_come_off_the_front(first.1, behind);
        assert forall|i: int| 0 <= i < others.len() implies value_written(#[trigger] others[i]) by {
            assert(others[i] == values[i + 1]);
        }
        lemma_any_values_read(others, rest);
        if word_of(first.0) >= 0x8000_0000 {
            assert(first.1 + behind == behind);
        }
        let (later, _) = take_items(others.len(), behind, take_value())->Ok_0;
        let (texts, _) = take_items(values.len(), bytes, take_value())->Ok_0;
        assert(texts.skip(1) == later);
        assert forall|i: int| 0 <= i < values.len() implies value_reads_as(
            values[i],
            #[trigger] texts[i],
        ) by {
            if i > 0 {
                assert(texts[i] == later[i - 1]);
                assert(values[i] == others[i - 1]);
            }
        }
    }
}

/// A row has as many values as it counts, in the order they come: each the
/// text of as many bytes as its length says, or NULL where that is negative,
/// whatever it is.
pub proof fn law_a_row_reads_its_values(
    count: Seq<u8>,
    values: Seq<(Seq<u8>, Seq<u8>)>,
    extra: Seq<u8>,
)
    requires
        count.len() == 2,
        count[0] * 0x100 + count[1] == values.len(),
        values.len() < 0x8000,
        forall|i: int| 0 <= i < values.len() ==> value_written(#[trigger] values[i]),
    ensures
        backend_of('D' as u8, count + (values_written(values) + extra)) matches Ok(
            BackendView::DataRow(texts),
        ) && texts.len() == values.len() && forall|i: int|
            0 <= i < values.len() ==> value_reads_as(values[i], #[trigger] texts[i]),
{
    law_counts_and_lengths(count, values_written(values) + extra, 0);
    lemma_any_values_read(values, extra);
}

/// The bytes of the fields of an error as a server sends them: each its
/// letter, its text and a NUL, and a zero behind the last.
pub open spec fn fields_written(fields: Seq<(u8, Seq<char>)>) -> Seq<u8> {
    fields.map_values(
        |field: (u8, Seq<char>)| seq![field.0] + encode_utf8(field.1) + seq![0u8],
    ).flatten() + seq![0u8]
}

/// Whether a text is the last that the fields have under a letter, or
/// `otherwise` where none has that letter.
pub open spec fn last_under(
    fields: Seq<(u8, Seq<char>)>,
    letter: u8,
    otherwise: Seq<char>,
    text: Seq<char>,
) -> bool {
    ||| text == otherwise && forall|i: int| 0 <= i < fields.len() ==> (#[trigger] fields[i]).0
        != letter
    ||| exists|i: int|
        0 <= i < fields.len() && (#[trigger] fields[i]).0 == letter && fields[i].1 == text
            && forall|j: int| i < j < fields.len() ==> (#[trigger] fields[j]).0 != letter
}

/// What is last of the fields behind the first is last of all of them.
proof fn lemma_last_under(
    fields: Seq<(u8, Seq<char>)>,
    letter: u8,
    otherwise: Seq<char>,
    text: Seq<char>,
)
    requires
        fields.len() > 0,
        last_under(
            fields.skip(1),
            letter,
            if fields[0].0 == letter {
                fields[0].1
            } else {
                otherwise
            },
            text,
        ),
    ensures
        last_under(fields, letter, otherwise, text),
{
    let others = fields.skip(1);
    let first = if fields[0].0 == letter {
        fields[0].1
    } else {
        otherwise
    };
    assert forall|j: int| 0 < j < fields.len() implies #[trigger] fields[j] == others[j - 1] by {}
    if text == first && forall|i: int| 0 <= i < others.len() ==> (#[trigger] others[i]).0 != letter {
        assert(forall|j: int| 0 < j < fields.len() ==> (#[trigger] fields[j]).0 != letter);
        if fields[0].0 == letter {
            assert(fields[0].1 == text);
        }
    } else {
        let i = choose|i: int|
            0 <= i < others.len() && (#[trigger] others[i]).0 == letter && others[i].1 == text
                && forall|j: int| i < j < others.len() ==> (#[trigger] others[j]).0 != letter;
        assert(fields[i + 1].0 == letter && fields[i + 1].1 == text);
        assert(forall|j: int| i + 1 < j < fields.len() ==> (#[trigger] fields[j]).0 != letter);
    }
}

/// The fields of an error read one after another.
proof fn lemma_any_fields_read(
    fields: Seq<(u8, Seq<char>)>,
    extra: Seq<u8>,
    severity: Seq<char>,
    code: Seq<char>,
    message: Seq<char>,
)
    requires
        forall|i: int|
            0 <= i < fields.len() ==> (#[trigger] fields[i]).0 != 0 && !fields[i].1.contains('\0'),
    ensures
        take_error(fields_written(fields) + extra, severity, code, message) matches Ok(
            BackendView::ErrorResponse { severity: s, code: c, message: m },
        ) && last_under(fields, 'S' as u8, severity, s) && last_under(fields, 'C' as u8, code, c)
            && last_under(fields, 'M' as u8, message, m),
    decreases fields.len(),
{
    let bytes = fields_written(fields) + extra;
    if fields.len() == 0 {
        assert(bytes == seq![0u8] + extra);
        assert(bytes.take(1)[0] == 0);
    } else {
        let (letter, text) = fields[0];
        let others = fields.skip(1);
        let behind = fields_written(others) + extra;
        let each = fields.map_values(
            |field: (u8, Seq<char>)| seq![field.0] + encode_utf8(field.1) + seq![0u8],
        );
        assert(each.drop_first() == others.map_values(
            |field: (u8, Seq<char>)| seq![field.0] + encode_utf8(field.1) + seq![0u8],
        ));
        assert(fields[0].0 != 0);
        assert(bytes == error_field(letter, text) + behind) by {
            law_a_text_is_its_utf8_and_a_nul(text, behind);
        }
        lemma_error_field(letter, text, behind, severity, code, message);
        assert forall|i: int| 0 <= i < others.len() implies (#[trigger] others[i]).0 != 0
            && !others[i].1.contains('\0') by {
            assert(others[i] == fields[i + 1]);
        }
        let s = if letter == 'S' as u8 { text } else { severity };
        let c = if letter == 'C' as u8 { text } else { code };
        let m = if letter == 'M' as u8 { text } else { message };
        lemma_any_fields_read(others, extra, s, c, m);
        let read = take_error(behind, s, c, m)->Ok_0;
        lemma_last_under(fields, 'S' as u8, severity, read->ErrorResponse_severity);
        lemma_last_under(fields, 'C' as u8, code, read->ErrorResponse_code);
        lemma_last_under(fields, 'M' as u8, message, read->ErrorResponse_message);
    }
}

/// An error reads as the severity, the code and the message that it has under
/// `S`, `C` and `M`, wherever those stand and whatever other fields there are;
/// what it does not have is empty.
pub proof fn law_an_error_reads_its_fields(fields: Seq<(u8, Seq<char>)>, extra: Seq<u8>)
    requires
        forall|i: int|
            0 <= i < fields.len() ==> (#[trigger] fields[i]).0 != 0 && !fields[i].1.contains('\0'),
    ensures
        backend_of('E' as u8, fields_written(fields) + extra) matches Ok(
            BackendView::ErrorResponse { severity, code, message },
        ) && last_under(fields, 'S' as u8, seq![], severity) && last_under(
            fields,
            'C' as u8,
            seq![],
            code,
        ) && last_under(fields, 'M' as u8, seq![], message),
{
    lemma_any_fields_read(fields, extra, seq![], seq![], seq![]);
}

/// The messages of fixed shape read as what they say, whatever stands behind:
/// a challenge as its method, whatever salt or mechanisms follow it; a
/// parameter; the key; the status; the tag; and that there was no query.
pub proof fn law_fixed_messages_read(
    word: Seq<u8>,
    other: Seq<u8>,
    first: Seq<u8>,
    second: Seq<u8>,
    byte: u8,
    extra: Seq<u8>,
)
    requires
        word.len() == 4,
        other.len() == 4,
        !first.contains(0),
        !second.contains(0),
    ensures
        ({
            let signed = |field: Seq<u8>|
                if word_of(field) < 0x8000_0000 {
                    word_of(field)
                } else {
                    word_of(field) - 0x1_0000_0000
                };
            let text = first + seq![0u8];
            let more = second + seq![0u8];
            &&& backend_of('R' as u8, word + extra) == Ok::<_, Fault>(
                BackendView::Authentication(signed(word) as i32),
            )
            &&& backend_of('K' as u8, word + (other + extra)) == Ok::<_, Fault>(
                BackendView::BackendKeyData {
                    process: signed(word) as i32,
                    secret: signed(other) as i32,
                },
            )
            &&& backend_of('S' as u8, text + (more + extra)) == Ok::<_, Fault>(
                BackendView::ParameterStatus { name: text_read(first), value: text_read(second) },
            )
            &&& backend_of('C' as u8, text + extra) == Ok::<_, Fault>(
                BackendView::CommandComplete(text_read(first)),
            )
            &&& backend_of('Z' as u8, seq![byte] + extra) == Ok::<_, Fault>(
                BackendView::ReadyForQuery(byte),
            )
            &&& backend_of('I' as u8, extra) == Ok::<_, Fault>(BackendView::EmptyQueryResponse)
        }),
{
    let more = second + seq![0u8];
    law_fields_come_off_the_front(word, extra);
    law_fields_come_off_the_front(word, other + extra);
    law_fields_come_off_the_front(other, extra);
    law_fields_come_off_the_front(seq![byte], extra);
    law_a_wire_string_ends_at_its_nul(first, more + extra);
    law_a_wire_string_ends_at_its_nul(first, extra);
    law_a_wire_string_ends_at_its_nul(second, extra);
}

/// A message of any other type is read past, whatever its body is.
pub proof fn law_other_messages_are_read_past(kind: u8, body: Seq<u8>)
    requires
        !seq!['R', 'S', 'K', 'Z', 'T', 'D', 'C', 'I', 'E'].contains(kind as char),
    ensures
        backend_of(kind, body) == Ok::<_, Fault>(BackendView::Other(kind)),
{
    let kinds = seq!['R', 'S', 'K', 'Z', 'T', 'D', 'C', 'I', 'E'];
    assert(kinds[0] == 'R' && kinds[1] == 'S' && kinds[2] == 'K' && kinds[3] == 'Z' && kinds[4]
        == 'T' && kinds[5] == 'D' && kinds[6] == 'C' && kinds[7] == 'I' && kinds[8] == 'E');
}

/// What is read is the type byte and the body of the message that comes next.
pub proof fn law_a_message_is_read_by_its_type_and_body(kind: u8, body: Seq<u8>, rest: Seq<u8>)
    requires
        body.len() + 4 <= 0x400_0000,
    ensures
        backend_read(framed(Some(kind), body) + rest).1 == rest,
        match backend_of(kind, body) {
            Ok(message) => backend_read(framed(Some(kind), body) + rest).0 == Ok::<_, Fault>(
                Some(message),
            ),
            Err(fault) => backend_read(framed(Some(kind), body) + rest).0 == Err::<
                Option<BackendView>,
                Fault,
            >(fault),
        },
        backend_read(seq![]).0 == Ok::<Option<BackendView>, Fault>(None),
{
    law_frame_reads_back(kind, body, rest);
}

/// Each message is written with its own type byte and with its fields in the
/// protocol's order: integers with the byte that counts most first, texts as
/// their UTF-8 and a NUL, values behind their lengths, NULL as a length of
/// minus one.
pub proof fn law_messages_are_written_as_the_protocol_has_them(message: BackendView)
    ensures
        ({
            let kind = backend_kind(message);
            let body = backend_body(message);
            let nul = seq![0u8];
            match message {
                BackendView::Authentication(method) => kind == 0x52 && body.len() == 4 && word_of(
                    body,
                ) == if method < 0 { method + 0x1_0000_0000 } else { method as int },
                BackendView::ParameterStatus { name, value } => kind == 0x53 && body
                    == encode_utf8(name) + nul + encode_utf8(value) + nul,
                BackendView::BackendKeyData { process, secret } => kind == 0x4b && body.len() == 8
                    && word_of(body) == (if process < 0 {
                    process + 0x1_0000_0000
                } else {
                    process as int
                }) && word_of(body.skip(4)) == if secret < 0 {
                    secret + 0x1_0000_0000
                } else {
                    secret as int
                },
                BackendView::ReadyForQuery(status) => kind == 0x5a && body == seq![status],
                BackendView::CommandComplete(tag) => kind == 0x43 && body == encode_utf8(tag) + nul,
                BackendView::EmptyQueryResponse => kind == 0x49 && body.len() == 0,
                BackendView::ErrorResponse { severity, code, message } => kind == 0x45 && body
                    == seq![0x53u8] + encode_utf8(severity) + nul + seq![0x56u8] + encode_utf8(
                    severity,
                ) + nul + seq![0x43u8] + encode_utf8(code) + nul + seq![0x4du8] + encode_utf8(
                    message,
                ) + nul + nul,
                BackendView::Other(other) => kind == other && body.len() == 0,
                BackendView::RowDescription(columns) => kind == 0x54 && body == count_bytes(
                    columns.len(),
                ) + columns_described(
                    columns,
                    Seq::new(
                        columns.len(),
                        |i: int|
                            seq![
                                0u8, 0, 0, 0, 0, 0, 0, 0, 0, 25, 255, 255, 255, 255, 255, 255, 0, 0,
                            ],
                    ),
                ),
                BackendView::DataRow(values) => kind == 0x44 && body == count_bytes(values.len())
                    + values_written(
                    Seq::new(
                        values.len(),
                        |i: int|
                            match values[i] {
                                Some(text) => (
                                    length_bytes(encode_utf8(text).len()),
                                    encode_utf8(text),
                                ),
                                None => (seq![255u8, 255, 255, 255], seq![]),
                            },
                    ),
                ),
            }
        }),
{
    match message {
        BackendView::Authentication(method) => {
            law_integers_are_written_high_first(method as int);
        },
        BackendView::ParameterStatus { name, value } => {
            assert(backend_body(message) == encode_utf8(name) + seq![0u8] + encode_utf8(value)
                + seq![0u8]);
        },
        BackendView::BackendKeyData { process, secret } => {
            law_integers_are_written_high_first(process as int);
            law_integers_are_written_high_first(secret as int);
        },
        BackendView::RowDescription(columns) => {
            lemma_columns_are_written(columns);
        },
        BackendView::DataRow(values) => {
            lemma_values_are_written(values);
        },
        BackendView::ErrorResponse { severity, code, message: text } => {
            lemma_error_is_written(severity, code, text);
        },
        BackendView::CommandComplete(tag) => {
            assert(backend_body(message) == encode_utf8(tag) + seq![0u8]);
        },
        _ => {},
    }
}

/// A column is described as text of any length, in the text format, of no
/// table.
proof fn lemma_columns_are_written(columns: Seq<Seq<char>>)
    ensures
        backend_body(BackendView::RowDescription(columns)) == count_bytes(columns.len())
            + columns_described(
            columns,
            Seq::new(
                columns.len(),
                |i: int|
                    seq![0u8, 0, 0, 0, 0, 0, 0, 0, 0, 25, 255, 255, 255, 255, 255, 255, 0, 0],
            ),
        ),
{
    let said = seq![0u8, 0, 0, 0, 0, 0, 0, 0, 0, 25, 255, 255, 255, 255, 255, 255, 0, 0];
    let described = Seq::new(
        columns.len(),
        |i: int| seq![0u8, 0, 0, 0, 0, 0, 0, 0, 0, 25, 255, 255, 255, 255, 255, 255, 0, 0],
    );
    let left = columns.map_values(|name: Seq<char>| described_column(name));
    let right = Seq::new(
        columns.len(),
        |i: int| encode_utf8(columns[i]) + seq![0u8] + described[i],
    );
    assert forall|i: int| 0 <= i < columns.len() implies left[i] == right[i] by {
        assert(described[i] == said);
        assert(left[i] == encode_utf8(columns[i]) + seq![0u8] + said);
    }
    assert(left == right);
}

/// A value is its length and its UTF-8, NULL a length of minus one.
proof fn lemma_values_are_written(values: Seq<Option<Seq<char>>>)
    ensures
        backend_body(BackendView::DataRow(values)) == count_bytes(values.len()) + values_written(
            Seq::new(
                values.len(),
                |i: int|
                    match values[i] {
                        Some(text) => (length_bytes(encode_utf8(text).len()), encode_utf8(text)),
                        None => (seq![255u8, 255, 255, 255], seq![]),
                    },
            ),
        ),
{
    let pairs = Seq::new(
        values.len(),
        |i: int|
            match values[i] {
                Some(text) => (length_bytes(encode_utf8(text).len()), encode_utf8(text)),
                None => (seq![255u8, 255, 255, 255], seq![]),
            },
    );
    let left = values.map_values(|value: Option<Seq<char>>| row_value(value));
    let right = pairs.map_values(|value: (Seq<u8>, Seq<u8>)| value.0 + value.1);
    assert forall|i: int| 0 <= i < values.len() implies left[i] == right[i] by {
        assert(left[i] == right[i]);
    }
    assert(left == right);
}

/// An error is its severity twice, its code, its message and a zero.
proof fn lemma_error_is_written(severity: Seq<char>, code: Seq<char>, message: Seq<char>)
    ensures
        backend_body(BackendView::ErrorResponse { severity, code, message }) == seq![0x53u8]
            + encode_utf8(severity) + seq![0u8] + seq![0x56u8] + encode_utf8(severity) + seq![0u8]
            + seq![0x43u8] + encode_utf8(code) + seq![0u8] + seq![0x4du8] + encode_utf8(message)
            + seq![0u8] + seq![0u8],
{
}

/// Where things are counted that do not come, what is read of them fails as
/// the first of those does.
proof fn lemma_items_run_out<T>(
    read: nat,
    count: nat,
    bytes: Seq<u8>,
    item: spec_fn(Seq<u8>) -> Result<(T, Seq<u8>), Fault>,
)
    requires
        read < count,
        take_items(read, bytes, item) matches Ok((_, tail)) && item(tail) is Err,
    ensures
        take_items(count, bytes, item) == Err::<(Seq<T>, Seq<u8>), Fault>(
            item(take_items(read, bytes, item)->Ok_0.1)->Err_0,
        ),
    decreases read,
{
    if read > 0 {
        let (_, rest) = item(bytes)->Ok_0;
        lemma_items_run_out((read - 1) as nat, (count - 1) as nat, rest, item);
    }
}

/// The words for a field that is longer than what remains of its message.
pub open spec fn past_the_end() -> Fault {
    Fault { message: "a field runs past the end of its message"@, retryable: false }
}

/// A row that counts more values than come, or a value that is shorter than
/// its length says, is refused, and not filled up.
pub proof fn law_a_row_that_breaks_off_is_refused(
    count: Seq<u8>,
    values: Seq<(Seq<u8>, Seq<u8>)>,
    tail: Seq<u8>,
)
    requires
        count.len() == 2,
        values.len() < count[0] * 0x100 + count[1] < 0x8000,
        forall|i: int| 0 <= i < values.len() ==> value_written(#[trigger] values[i]),
        tail.len() < 4 || (word_of(tail) < 0x8000_0000 && tail.len() - 4 < word_of(tail)),
    ensures
        backend_of('D' as u8, count + (values_written(values) + tail)) == Err::<BackendView, Fault>(
            past_the_end(),
        ),
{
    let counted = (count[0] * 0x100 + count[1]) as nat;
    let bytes = values_written(values) + tail;
    law_counts_and_lengths(count, bytes, 0);
    lemma_any_values_read(values, tail);
    assert(take_value()(tail) == Err::<(Option<Seq<char>>, Seq<u8>), Fault>(past_the_end())) by {
        if tail.len() < 4 {
            law_what_runs_past_is_refused(tail, 4);
        } else {
            let field = tail.take(4);
            let behind = tail.skip(4);
            assert(field + behind == tail);
            law_fields_come_off_the_front(field, behind);
            law_what_runs_past_is_refused(behind, word_of(tail) as nat);
        }
    }
    lemma_items_run_out(values.len(), counted, bytes, take_value());
}

/// A description that counts more columns than come, or says less of one than
/// eighteen bytes, is refused.
pub proof fn law_a_description_that_breaks_off_is_refused(
    count: Seq<u8>,
    names: Seq<Seq<char>>,
    described: Seq<Seq<u8>>,
    tail: Seq<u8>,
    name: Seq<u8>,
    short: Seq<u8>,
)
    requires
        count.len() == 2,
        names.len() < count[0] * 0x100 + count[1] < 0x8000,
        described.len() == names.len(),
        forall|i: int| 0 <= i < names.len() ==> !(#[trigger] names[i]).contains('\0'),
        forall|i: int| 0 <= i < names.len() ==> (#[trigger] described[i]).len() == 18,
        !tail.contains(0) || (!name.contains(0) && short.len() < 18 && tail == name + seq![0u8]
            + short),
    ensures
        backend_of('T' as u8, count + (columns_described(names, described) + tail)) is Err,
{
    let counted = (count[0] * 0x100 + count[1]) as nat;
    let bytes = columns_described(names, described) + tail;
    law_counts_and_lengths(count, bytes, 0);
    lemma_any_columns_read(names, described, tail);
    assert(take_column()(tail) is Err) by {
        if !tail.contains(0) {
            law_a_wire_string_ends_at_its_nul(tail, seq![]);
        } else {
            law_a_wire_string_ends_at_its_nul(name, short);
            law_what_runs_past_is_refused(short, 18);
        }
    }
    lemma_items_run_out(names.len(), counted, bytes, take_column());
}

/// The fields of an error, without the zero that ends them.
pub open spec fn fields_begun(fields: Seq<(u8, Seq<char>)>) -> Seq<u8> {
    fields.map_values(
        |field: (u8, Seq<char>)| seq![field.0] + encode_utf8(field.1) + seq![0u8],
    ).flatten()
}

/// Fields that are not ended fail as what follows them does.
proof fn lemma_fields_break_off(
    fields: Seq<(u8, Seq<char>)>,
    tail: Seq<u8>,
    severity: Seq<char>,
    code: Seq<char>,
    message: Seq<char>,
)
    requires
        forall|i: int|
            0 <= i < fields.len() ==> (#[trigger] fields[i]).0 != 0 && !fields[i].1.contains('\0'),
        tail.len() == 0 || (tail[0] != 0 && !tail.skip(1).contains(0)),
    ensures
        take_error(fields_begun(fields) + tail, severity, code, message) is Err,
    decreases fields.len(),
{
    let bytes = fields_begun(fields) + tail;
    if fields.len() == 0 {
        assert(bytes == tail);
        if tail.len() > 0 {
            assert(tail.take(1)[0] == tail[0]);
            law_a_wire_string_ends_at_its_nul(tail.skip(1), seq![]);
        }
    } else {
        let (letter, text) = fields[0];
        let others = fields.skip(1);
        let behind = fields_begun(others) + tail;
        let each = fields.map_values(
            |field: (u8, Seq<char>)| seq![field.0] + encode_utf8(field.1) + seq![0u8],
        );
        assert(each.drop_first() == others.map_values(
            |field: (u8, Seq<char>)| seq![field.0] + encode_utf8(field.1) + seq![0u8],
        ));
        assert(fields[0].0 != 0);
        assert(bytes == error_field(letter, text) + behind) by {
            law_a_text_is_its_utf8_and_a_nul(text, behind);
        }
        lemma_error_field(letter, text, behind, severity, code, message);
        assert forall|i: int| 0 <= i < others.len() implies (#[trigger] others[i]).0 != 0
            && !others[i].1.contains('\0') by {
            assert(others[i] == fields[i + 1]);
        }
        lemma_fields_break_off(
            others,
            tail,
            if letter == 'S' as u8 { text } else { severity },
            if letter == 'C' as u8 { text } else { code },
            if letter == 'M' as u8 { text } else { message },
        );
    }
}

/// An error that is not ended by its zero, or whose last text has no NUL, is
/// refused.
pub proof fn law_an_error_that_breaks_off_is_refused(
    fields: Seq<(u8, Seq<char>)>,
    tail: Seq<u8>,
)
    requires
        forall|i: int|
            0 <= i < fields.len() ==> (#[trigger] fields[i]).0 != 0 && !fields[i].1.contains('\0'),
        tail.len() == 0 || (tail[0] != 0 && !tail.skip(1).contains(0)),
    ensures
        backend_of('E' as u8, fields_begun(fields) + tail) is Err,
{
    lemma_fields_break_off(fields, tail, seq![], seq![], seq![]);
}

/// A message of fixed shape that is too short for its fields is refused.
pub proof fn law_a_short_message_is_refused(short: Seq<u8>, word: Seq<u8>, text: Seq<char>)
    requires
        short.len() < 4,
        word.len() == 4,
        !text.contains('\0'),
    ensures
        backend_of('R' as u8, short) == Err::<BackendView, Fault>(past_the_end()),
        backend_of('K' as u8, short) == Err::<BackendView, Fault>(past_the_end()),
        backend_of('K' as u8, word + short) == Err::<BackendView, Fault>(past_the_end()),
        backend_of('Z' as u8, seq![]) == Err::<BackendView, Fault>(past_the_end()),
        short.len() < 2 ==> backend_of('T' as u8, short) == Err::<BackendView, Fault>(
            past_the_end(),
        ) && backend_of('D' as u8, short) == Err::<BackendView, Fault>(past_the_end()),
        !short.contains(0) ==> backend_of('C' as u8, short) is Err && backend_of('S' as u8, short)
            is Err && backend_of('S' as u8, encode_utf8(text) + seq![0u8] + short) is Err,
{
    law_what_runs_past_is_refused(short, 4);
    law_what_runs_past_is_refused(seq![], 1);
    law_fields_come_off_the_front(word, short);
    law_a_text_is_its_utf8_and_a_nul(text, short);
    if !short.contains(0) {
        law_a_wire_string_ends_at_its_nul(short, seq![]);
    }
}

} // verus!
