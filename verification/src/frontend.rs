//! What a client sends: the startup message that opens a connection, the
//! password it answers a challenge with, the query it runs, and the
//! goodbye. Read here as well as written, because the far-end
//! [`crate::Session`] reads exactly these.

use vstd::prelude::*;
use vstd::utf8::encode_utf8;

use crate::cursor::{law_fields_come_off_the_front, take_i32, Cursor};
use crate::error::{permanent, Fault, TransportError};
use crate::text::{char_debug, debug_char, same, signed_decimal, signed_number};
use crate::wire::{
    body_read, cstring_bytes, frame, framed, law_a_text_is_its_utf8_and_a_nul,
    law_a_wire_string_ends_at_its_nul, law_frame_reads_back, law_opening_reads_back,
    lemma_cstring_consumes, lemma_cstring_reads_back, lemma_i32_reads_back, read_body, read_typed,
    take_cstring, text_read, typed_read, Postgres, PostgresWrite, MAX_MESSAGE, PROTOCOL_3_0, SSL_REQUEST,
};
use crate::writer::{i32_bytes, ByteWriter};

verus! {

/// What a client sends.
#[derive(Clone, Debug, PartialEq, Eq)]
pub enum Frontend {
    SslRequest,
    Startup { user: String, database: String },
    Password(String),
    Query(String),
    Terminate,
}

/// What a client says, its strings as their characters.
pub enum FrontendView {
    SslRequest,
    Startup { user: Seq<char>, database: Seq<char> },
    Password(Seq<char>),
    Query(Seq<char>),
    Terminate,
}

impl View for Frontend {
    type V = FrontendView;

    open spec fn view(&self) -> FrontendView {
        match *self {
            Frontend::SslRequest => FrontendView::SslRequest,
            Frontend::Startup { user, database } => FrontendView::Startup {
                user: user@,
                database: database@,
            },
            Frontend::Password(password) => FrontendView::Password(password@),
            Frontend::Query(sql) => FrontendView::Query(sql@),
            Frontend::Terminate => FrontendView::Terminate,
        }
    }
}

impl DeepView for Frontend {
    type V = FrontendView;

    open spec fn deep_view(&self) -> FrontendView {
        self@
    }
}

/// Whether a message opens a connection; those have no type byte.
pub open spec fn opens(message: FrontendView) -> bool {
    message is SslRequest || message is Startup
}

/// The type byte of a message that has one.
pub open spec fn frontend_kind(message: FrontendView) -> Option<u8> {
    match message {
        FrontendView::SslRequest => None,
        FrontendView::Startup { .. } => None,
        FrontendView::Password(_) => Some('p' as u8),
        FrontendView::Query(_) => Some('Q' as u8),
        FrontendView::Terminate => Some('X' as u8),
    }
}

/// The body of a message.
pub open spec fn frontend_body(message: FrontendView) -> Seq<u8> {
    match message {
        FrontendView::SslRequest => i32_bytes(SSL_REQUEST as int),
        FrontendView::Startup { user, database } => i32_bytes(PROTOCOL_3_0 as int) + cstring_bytes(
            "user"@,
        ) + cstring_bytes(user) + cstring_bytes("database"@) + cstring_bytes(database) + seq![0u8],
        FrontendView::Password(password) => cstring_bytes(password),
        FrontendView::Query(sql) => cstring_bytes(sql),
        FrontendView::Terminate => seq![],
    }
}

/// A message as it is on the wire.
pub open spec fn frontend_bytes(message: FrontendView) -> Seq<u8> {
    framed(frontend_kind(message), frontend_body(message))
}

/// Messages as they are on the wire, one after another.
pub open spec fn frontend_stream(messages: Seq<FrontendView>) -> Seq<u8> {
    messages.map_values(|message: FrontendView| frontend_bytes(message)).flatten()
}

/// The parameters of a startup message up to the empty name that ends them.
/// Of the parameters with one name the last counts; `user` and `database`
/// are what they are where none follows, and a database that is not named is
/// the user's own.
pub open spec fn take_parameters(
    bytes: Seq<u8>,
    user: Seq<char>,
    database: Option<Seq<char>>,
) -> Result<FrontendView, Fault>
    decreases bytes.len(),
{
    match take_cstring(bytes) {
        Ok((name, rest)) => if name.len() == 0 {
            Ok(
                FrontendView::Startup {
                    user,
                    database: match database {
                        Some(database) => database,
                        None => user,
                    },
                },
            )
        } else {
            match take_cstring(rest) {
                Ok((value, rest)) => {
                    proof {
                        lemma_cstring_consumes(bytes);
                        lemma_cstring_consumes(take_cstring(bytes)->Ok_0.1);
                    }
                    take_parameters(
                        rest,
                        if name == "user"@ {
                            value
                        } else {
                            user
                        },
                        if name == "database"@ {
                            Some(value)
                        } else {
                            database
                        },
                    )
                },
                Err(fault) => Err(fault),
            }
        },
        Err(fault) => Err(fault),
    }
}

/// What an opening message with this body says. Bytes behind its last field
/// are not looked at.
pub open spec fn opening_of(body: Seq<u8>) -> Result<FrontendView, Fault> {
    match take_i32(body) {
        Ok((version, rest)) => if version == SSL_REQUEST {
            Ok(FrontendView::SslRequest)
        } else if version == PROTOCOL_3_0 {
            take_parameters(rest, seq![], None)
        } else {
            Err(permanent("protocol "@ + signed_decimal(version) + " is not 3.0"@))
        },
        Err(fault) => Err(fault),
    }
}

/// What a message of the type `kind` with this body says. Bytes behind its
/// last field are not looked at.
pub open spec fn frontend_of(kind: u8, body: Seq<u8>) -> Result<FrontendView, Fault> {
    if kind == 'p' as u8 {
        match take_cstring(body) {
            Ok((password, _)) => Ok(FrontendView::Password(password)),
            Err(fault) => Err(fault),
        }
    } else if kind == 'Q' as u8 {
        match take_cstring(body) {
            Ok((sql, _)) => Ok(FrontendView::Query(sql)),
            Err(fault) => Err(fault),
        }
    } else if kind == 'X' as u8 {
        Ok(FrontendView::Terminate)
    } else {
        Err(permanent(char_debug(kind as char) + " is not a message the simple flow sends"@))
    }
}

/// What comes of reading an opening message off all that a client sent
/// before it closed, and what is left unread then.
pub open spec fn startup_read(bytes: Seq<u8>) -> (Result<Option<FrontendView>, Fault>, Seq<u8>) {
    let (body, rest) = body_read(bytes, true);
    let read = match body {
        Ok(Some(body)) => match opening_of(body) {
            Ok(message) => Ok(Some(message)),
            Err(fault) => Err(fault),
        },
        Ok(None) => Ok(None),
        Err(fault) => Err(fault),
    };
    (read, rest)
}

/// What comes of reading a typed message off all that a client sent before
/// it closed, and what is left unread then.
pub open spec fn frontend_read(bytes: Seq<u8>) -> (Result<Option<FrontendView>, Fault>, Seq<u8>) {
    let (typed, rest) = typed_read(bytes);
    let read = match typed {
        Ok(Some((kind, body))) => match frontend_of(kind, body) {
            Ok(message) => Ok(Some(message)),
            Err(fault) => Err(fault),
        },
        Ok(None) => Ok(None),
        Err(fault) => Err(fault),
    };
    (read, rest)
}

/// `message` as bytes on the wire.
#[must_use]
pub fn encode_frontend(message: &Frontend) -> (bytes: Vec<u8>)
    ensures
        bytes@ == frontend_bytes(message@),
{
    let mut body: Vec<u8> = Vec::new();
    let kind: Option<u8> = match message {
        Frontend::SslRequest => {
            body.i32_be(SSL_REQUEST);
            None
        },
        Frontend::Startup { user, database } => {
            body.i32_be(PROTOCOL_3_0).cstring("user").cstring(user.as_str()).cstring(
                "database",
            ).cstring(database.as_str()).byte(0);
            None
        },
        Frontend::Password(password) => {
            body.cstring(password.as_str());
            Some('p' as u8)
        },
        Frontend::Query(sql) => {
            body.cstring(sql.as_str());
            Some('Q' as u8)
        },
        Frontend::Terminate => Some('X' as u8),
    };
    assert(body@ == frontend_body(message@));
    frame(kind, body.as_slice())
}

/// Read what a client opens with: the startup message, or a request for
/// TLS. `None` when the client closed first. `reader` is all that the client
/// sent before it closed.
///
/// # Errors
/// A version that is not 3.0, or a message that breaks off.
pub fn read_startup(reader: &mut &[u8]) -> (message: Result<Option<Frontend>, TransportError>)
    ensures
        final(reader)@ == startup_read(old(reader)@).1,
        match startup_read(old(reader)@).0 {
            Ok(Some(said)) => message matches Ok(Some(m)) && m@ == said,
            Ok(None) => message matches Ok(None),
            Err(fault) => message matches Err(e) && e@ == fault,
        },
{
    let body = match read_body(reader, None)? {
        Some(body) => body,
        None => return Ok(None),
    };
    Ok(Some(decode_startup(body.as_slice())?))
}

/// What an opening message with this `body` says.
///
/// # Errors
/// A version that is not 3.0, or a body that breaks off.
pub fn decode_startup(body: &[u8]) -> (message: Result<Frontend, TransportError>)
    ensures
        match opening_of(body@) {
            Ok(said) => message matches Ok(m) && m@ == said,
            Err(fault) => message matches Err(e) && e@ == fault,
        },
{
    let mut cursor = Cursor::new(body);
    let version: i32 = cursor.i32_be()?;
    if version == SSL_REQUEST {
        return Ok(Frontend::SslRequest);
    }
    if version != PROTOCOL_3_0 {
        return Err(
            TransportError::permanent(
                "protocol ".to_string().concat(signed_number(version).as_str()).concat(
                    " is not 3.0",
                ),
            ),
        );
    }
    let ghost parameters = cursor@;
    let mut user = String::new();
    let mut database: Option<String> = None;
    loop
        invariant
            opening_of(body@) == take_parameters(parameters, seq![], None),
            take_parameters(parameters, seq![], None) == take_parameters(
                cursor@,
                user@,
                database.deep_view(),
            ),
        decreases cursor@.len(),
    {
        proof {
            lemma_cstring_consumes(cursor@);
        }
        let name = cursor.cstring()?;
        if name.as_str().is_empty() {
            let database = match database {
                Some(database) => database,
                None => user.clone(),
            };
            return Ok(Frontend::Startup { user, database });
        }
        proof {
            lemma_cstring_consumes(cursor@);
        }
        let value = cursor.cstring()?;
        if same(name.as_str(), "user") {
            proof {
                lemma_parameter_names();
            }
            user = value;
        } else if same(name.as_str(), "database") {
            database = Some(value);
        }
    }
}

/// Read one typed message from a client, or `None` when it closed. `reader`
/// is all that the client sent before it closed.
///
/// # Errors
/// A type this crate does not read, or a message that breaks off.
pub fn read_frontend(reader: &mut &[u8]) -> (message: Result<Option<Frontend>, TransportError>)
    ensures
        final(reader)@ == frontend_read(old(reader)@).1,
        match frontend_read(old(reader)@).0 {
            Ok(Some(said)) => message matches Ok(Some(m)) && m@ == said,
            Ok(None) => message matches Ok(None),
            Err(fault) => message matches Err(e) && e@ == fault,
        },
{
    let (kind, body) = match read_typed(reader)? {
        Some(typed) => typed,
        None => return Ok(None),
    };
    let mut cursor = Cursor::new(body.as_slice());
    if kind == 'p' as u8 {
        Ok(Some(Frontend::Password(cursor.cstring()?)))
    } else if kind == 'Q' as u8 {
        Ok(Some(Frontend::Query(cursor.cstring()?)))
    } else if kind == 'X' as u8 {
        Ok(Some(Frontend::Terminate))
    } else {
        Err(
            TransportError::permanent(
                debug_char(kind as char).concat(" is not a message the simple flow sends"),
            ),
        )
    }
}

/// Whether a message can be told apart on the wire: no wire string has a NUL
/// in it, and the length is no more than is read.
pub open spec fn frontend_sendable(message: FrontendView) -> bool {
    &&& frontend_body(message).len() + 4 <= MAX_MESSAGE
    &&& match message {
        FrontendView::Startup { user, database } => !user.contains('\0') && !database.contains(
            '\0',
        ),
        FrontendView::Password(password) => !password.contains('\0'),
        FrontendView::Query(sql) => !sql.contains('\0'),
        _ => true,
    }
}

/// The names of the parameters are wire strings, and two of them.
proof fn lemma_parameter_names()
    ensures
        !"user"@.contains('\0'),
        !"database"@.contains('\0'),
        "user"@.len() == 4,
        "database"@.len() == 8,
{
    reveal_strlit("user");
    reveal_strlit("database");
}

/// One parameter of a startup message is read and the others follow.
proof fn lemma_parameter_reads_back(
    name: Seq<char>,
    value: Seq<char>,
    rest: Seq<u8>,
    user: Seq<char>,
    database: Option<Seq<char>>,
)
    requires
        name.len() > 0,
        !name.contains('\0'),
        !value.contains('\0'),
    ensures
        take_parameters(cstring_bytes(name) + (cstring_bytes(value) + rest), user, database)
            == take_parameters(
            rest,
            if name == "user"@ {
                value
            } else {
                user
            },
            if name == "database"@ {
                Some(value)
            } else {
                database
            },
        ),
{
    lemma_cstring_reads_back(name, cstring_bytes(value) + rest);
    lemma_cstring_reads_back(value, rest);
}

/// The body of a startup message reads back.
proof fn lemma_startup_reads_back(user: Seq<char>, database: Seq<char>)
    requires
        !user.contains('\0'),
        !database.contains('\0'),
    ensures
        opening_of(frontend_body(FrontendView::Startup { user, database })) == Ok::<_, Fault>(
            FrontendView::Startup { user, database },
        ),
{
    let body = frontend_body(FrontendView::Startup { user, database });
    let end = seq![0u8];
    let second = cstring_bytes("database"@) + (cstring_bytes(database) + end);
    let first = cstring_bytes("user"@) + (cstring_bytes(user) + second);
    assert(body == i32_bytes(PROTOCOL_3_0 as int) + first);
    lemma_i32_reads_back(PROTOCOL_3_0 as int, first);
    lemma_parameter_names();
    lemma_parameter_reads_back("user"@, user, second, seq![], None);
    lemma_parameter_reads_back("database"@, database, end, user, None);
    assert(cstring_bytes(seq![]) + Seq::<u8>::empty() == end);
    lemma_cstring_reads_back(seq![], seq![]);
}

/// What a client opens with reads back as what was said, and no byte of what
/// follows it is read.
pub proof fn law_startup_reads_back(message: FrontendView, rest: Seq<u8>)
    requires
        opens(message),
        frontend_sendable(message),
    ensures
        startup_read(frontend_bytes(message) + rest) == (
            Ok::<Option<FrontendView>, Fault>(Some(message)),
            rest,
        ),
{
    let body = frontend_body(message);
    law_opening_reads_back(body, rest);
    match message {
        FrontendView::SslRequest => {
            lemma_i32_reads_back(SSL_REQUEST as int, seq![]);
            assert(body + seq![] == body);
        },
        FrontendView::Startup { user, database } => {
            lemma_startup_reads_back(user, database);
        },
        _ => {},
    }
}

/// What a client sends once it has opened reads back as what was said, and
/// no byte of what follows it is read.
pub proof fn law_frontend_reads_back(message: FrontendView, rest: Seq<u8>)
    requires
        !opens(message),
        frontend_sendable(message),
    ensures
        frontend_read(frontend_bytes(message) + rest) == (
            Ok::<Option<FrontendView>, Fault>(Some(message)),
            rest,
        ),
{
    let body = frontend_body(message);
    law_frame_reads_back(frontend_kind(message)->0, body, rest);
    assert(body + seq![] == body);
    match message {
        FrontendView::Password(password) => {
            lemma_cstring_reads_back(password, seq![]);
        },
        FrontendView::Query(sql) => {
            lemma_cstring_reads_back(sql, seq![]);
        },
        _ => {},
    }
}

/// The bytes of the parameters of a startup message, each its name and its
/// value and a NUL behind either.
pub open spec fn parameters_written(parameters: Seq<(Seq<char>, Seq<char>)>) -> Seq<u8> {
    parameters.map_values(
        |parameter: (Seq<char>, Seq<char>)|
            encode_utf8(parameter.0) + seq![0u8] + encode_utf8(parameter.1) + seq![0u8],
    ).flatten()
}

/// Whether a value is the last that the parameters have under a name, or
/// `otherwise` where none has that name.
pub open spec fn last_named(
    parameters: Seq<(Seq<char>, Seq<char>)>,
    name: Seq<char>,
    otherwise: Seq<char>,
    value: Seq<char>,
) -> bool {
    ||| value == otherwise && forall|i: int|
        0 <= i < parameters.len() ==> (#[trigger] parameters[i]).0 != name
    ||| exists|i: int|
        0 <= i < parameters.len() && (#[trigger] parameters[i]).0 == name && parameters[i].1
            == value && forall|j: int|
            i < j < parameters.len() ==> (#[trigger] parameters[j]).0 != name
}

/// What is last of the parameters behind the first is last of all of them.
proof fn lemma_last_named(
    parameters: Seq<(Seq<char>, Seq<char>)>,
    name: Seq<char>,
    otherwise: Seq<char>,
    value: Seq<char>,
)
    requires
        parameters.len() > 0,
        last_named(
            parameters.skip(1),
            name,
            if parameters[0].0 == name {
                parameters[0].1
            } else {
                otherwise
            },
            value,
        ),
    ensures
        last_named(parameters, name, otherwise, value),
{
    let others = parameters.skip(1);
    let first = if parameters[0].0 == name {
        parameters[0].1
    } else {
        otherwise
    };
    assert forall|j: int| 0 < j < parameters.len() implies #[trigger] parameters[j] == others[j
        - 1] by {}
    if value == first && forall|i: int| 0 <= i < others.len() ==> (#[trigger] others[i]).0 != name {
        assert(forall|j: int| 0 < j < parameters.len() ==> (#[trigger] parameters[j]).0 != name);
        if parameters[0].0 == name {
            assert(parameters[0].1 == value);
        }
    } else {
        let i = choose|i: int|
            0 <= i < others.len() && (#[trigger] others[i]).0 == name && others[i].1 == value
                && forall|j: int| i < j < others.len() ==> (#[trigger] others[j]).0 != name;
        assert(parameters[i + 1].0 == name && parameters[i + 1].1 == value);
        assert(forall|j: int| i + 1 < j < parameters.len() ==> (#[trigger] parameters[j]).0 != name);
    }
}

/// The first parameter comes first on the wire.
proof fn lemma_parameters_first(parameters: Seq<(Seq<char>, Seq<char>)>, rest: Seq<u8>)
    requires
        parameters.len() > 0,
    ensures
        parameters_written(parameters) + rest == cstring_bytes(parameters[0].0) + (cstring_bytes(
            parameters[0].1,
        ) + (parameters_written(parameters.skip(1)) + rest)),
{
    let written = |parameter: (Seq<char>, Seq<char>)|
        encode_utf8(parameter.0) + seq![0u8] + encode_utf8(parameter.1) + seq![0u8];
    let each = parameters.map_values(written);
    assert(each.drop_first() == parameters.skip(1).map_values(written));
    assert(each.flatten() == each.first() + each.drop_first().flatten());
}

/// Whether the parameters can be told apart: none is called nothing, and none
/// has a NUL in it.
pub open spec fn parameters_sendable(parameters: Seq<(Seq<char>, Seq<char>)>) -> bool {
    forall|i: int|
        0 <= i < parameters.len() ==> (#[trigger] parameters[i]).0.len() > 0
            && !parameters[i].0.contains('\0') && !parameters[i].1.contains('\0')
}

/// Parameters read one after another.
proof fn lemma_any_parameters_read(
    parameters: Seq<(Seq<char>, Seq<char>)>,
    extra: Seq<u8>,
    user: Seq<char>,
    database: Option<Seq<char>>,
)
    requires
        parameters_sendable(parameters),
    ensures
        take_parameters(
            parameters_written(parameters) + (seq![0u8] + extra),
            user,
            database,
        ) matches Ok(FrontendView::Startup { user: u, database: d }) && last_named(
            parameters,
            "user"@,
            user,
            u,
        ) && last_named(
            parameters,
            "database"@,
            match database {
                Some(named) => named,
                None => u,
            },
            d,
        ),
    decreases parameters.len(),
{
    let end = seq![0u8] + extra;
    let bytes = parameters_written(parameters) + end;
    if parameters.len() == 0 {
        assert(bytes == end);
        assert(cstring_bytes(seq![]) + extra == end);
        lemma_cstring_reads_back(seq![], extra);
    } else {
        let (name, value) = parameters[0];
        let others = parameters.skip(1);
        assert(parameters[0].0.len() > 0);
        lemma_parameters_first(parameters, end);
        lemma_parameter_reads_back(
            name,
            value,
            parameters_written(others) + end,
            user,
            database,
        );
        assert forall|i: int| 0 <= i < others.len() implies (#[trigger] others[i]).0.len() > 0
            && !others[i].0.contains('\0') && !others[i].1.contains('\0') by {
            assert(others[i] == parameters[i + 1]);
        }
        let next_user = if name == "user"@ { value } else { user };
        let next_database = if name == "database"@ { Some(value) } else { database };
        lemma_any_parameters_read(others, extra, next_user, next_database);
        let read = take_parameters(
            parameters_written(others) + end,
            next_user,
            next_database,
        )->Ok_0;
        lemma_last_named(parameters, "user"@, user, read->Startup_user);
        lemma_last_named(
            parameters,
            "database"@,
            match database {
                Some(named) => named,
                None => read->Startup_user,
            },
            read->Startup_database,
        );
    }
}

/// A startup message names the user and the database that it has under those
/// names, wherever they stand and whatever else it has; without a user it is
/// nobody's, and without a database it is the user's own.
pub proof fn law_startup_names_the_user_and_the_database(
    parameters: Seq<(Seq<char>, Seq<char>)>,
    extra: Seq<u8>,
)
    requires
        parameters_sendable(parameters),
    ensures
        opening_of(
            seq![0u8, 3, 0, 0] + (parameters_written(parameters) + (seq![0u8] + extra)),
        ) matches Ok(FrontendView::Startup { user, database }) && last_named(
            parameters,
            "user"@,
            seq![],
            user,
        ) && last_named(parameters, "database"@, user, database),
{
    law_fields_come_off_the_front(
        seq![0u8, 3, 0, 0],
        parameters_written(parameters) + (seq![0u8] + extra),
    );
    lemma_any_parameters_read(parameters, extra, seq![], None);
}

/// Parameters that are not ended fail as what follows them does.
proof fn lemma_parameters_break_off(
    parameters: Seq<(Seq<char>, Seq<char>)>,
    tail: Seq<u8>,
    user: Seq<char>,
    database: Option<Seq<char>>,
)
    requires
        parameters_sendable(parameters),
        forall|user: Seq<char>, database: Option<Seq<char>>|
            #[trigger] take_parameters(tail, user, database) is Err,
    ensures
        take_parameters(parameters_written(parameters) + tail, user, database) is Err,
    decreases parameters.len(),
{
    if parameters.len() == 0 {
        assert(parameters_written(parameters) + tail == tail);
    } else {
        let (name, value) = parameters[0];
        let others = parameters.skip(1);
        assert(parameters[0].0.len() > 0);
        lemma_parameters_first(parameters, tail);
        lemma_parameter_reads_back(
            name,
            value,
            parameters_written(others) + tail,
            user,
            database,
        );
        assert forall|i: int| 0 <= i < others.len() implies (#[trigger] others[i]).0.len() > 0
            && !others[i].0.contains('\0') && !others[i].1.contains('\0') by {
            assert(others[i] == parameters[i + 1]);
        }
        lemma_parameters_break_off(
            others,
            tail,
            if name == "user"@ { value } else { user },
            if name == "database"@ { Some(value) } else { database },
        );
    }
}

/// A startup message whose parameters are not ended, or whose last has a name
/// and no value, is refused, and so is one that is too short for a version.
pub proof fn law_a_startup_that_breaks_off_is_refused(
    parameters: Seq<(Seq<char>, Seq<char>)>,
    name: Seq<char>,
    tail: Seq<u8>,
)
    requires
        parameters_sendable(parameters),
        name.len() > 0,
        !name.contains('\0'),
        !tail.contains(0),
    ensures
        opening_of(seq![0u8, 3, 0, 0] + (parameters_written(parameters) + tail)) is Err,
        opening_of(
            seq![0u8, 3, 0, 0] + (parameters_written(parameters) + (encode_utf8(name) + seq![0u8]
                + tail)),
        ) is Err,
        tail.len() < 4 ==> opening_of(tail) is Err,
{
    let named = encode_utf8(name) + seq![0u8] + tail;
    law_fields_come_off_the_front(seq![0u8, 3, 0, 0], parameters_written(parameters) + tail);
    law_fields_come_off_the_front(seq![0u8, 3, 0, 0], parameters_written(parameters) + named);
    assert forall|user: Seq<char>, database: Option<Seq<char>>|
        #[trigger] take_parameters(tail, user, database) is Err by {
        law_a_wire_string_ends_at_its_nul(tail, seq![]);
    }
    lemma_parameters_break_off(parameters, tail, seq![], None);
    assert forall|user: Seq<char>, database: Option<Seq<char>>|
        #[trigger] take_parameters(named, user, database) is Err by {
        law_a_text_is_its_utf8_and_a_nul(name, tail);
        law_a_wire_string_ends_at_its_nul(tail, seq![]);
    }
    lemma_parameters_break_off(parameters, named, seq![], None);
}

/// The version decides what an opening message is: the number that stands for
/// a request for TLS is one, whatever follows; any other but 3.0 is refused
/// for good, and named.
pub proof fn law_the_version_decides(field: Seq<u8>, rest: Seq<u8>)
    requires
        field.len() == 4,
    ensures
        ({
            let word = field[0] * 0x100_0000 + field[1] * 0x1_0000 + field[2] * 0x100 + field[3];
            let version = if word < 0x8000_0000 { word } else { word - 0x1_0000_0000 };
            &&& version == 80_877_103 ==> opening_of(field + rest) == Ok::<_, Fault>(
                FrontendView::SslRequest,
            )
            &&& version != 80_877_103 && version != 196_608 ==> opening_of(field + rest) == Err::<
                FrontendView,
                Fault,
            >(
                Fault {
                    message: "protocol "@ + signed_decimal(version) + " is not 3.0"@,
                    retryable: false,
                },
            )
        }),
{
    law_fields_come_off_the_front(field, rest);
}

/// A password and a query read as their text, whatever stands behind, and a
/// goodbye as itself; without their NUL they are refused, and any other type
/// is refused for good.
pub proof fn law_the_type_decides(kind: u8, text: Seq<u8>, body: Seq<u8>, extra: Seq<u8>)
    requires
        !text.contains(0),
    ensures
        frontend_of('p' as u8, text + seq![0u8] + extra) == Ok::<_, Fault>(
            FrontendView::Password(text_read(text)),
        ),
        frontend_of('Q' as u8, text + seq![0u8] + extra) == Ok::<_, Fault>(
            FrontendView::Query(text_read(text)),
        ),
        frontend_of('X' as u8, body) == Ok::<_, Fault>(FrontendView::Terminate),
        !body.contains(0) ==> frontend_of('p' as u8, body) is Err && frontend_of('Q' as u8, body)
            is Err,
        kind != 0x70 && kind != 0x51 && kind != 0x58 ==> frontend_of(kind, body) == Err::<
            FrontendView,
            Fault,
        >(
            Fault {
                message: char_debug(kind as char) + " is not a message the simple flow sends"@,
                retryable: false,
            },
        ),
{
    law_a_wire_string_ends_at_its_nul(text, extra);
    if !body.contains(0) {
        law_a_wire_string_ends_at_its_nul(body, seq![]);
    }
}

/// What is read is the body of the message that comes next, behind its type
/// byte where the connection is open.
pub proof fn law_a_clients_message_is_read_by_its_body(kind: u8, body: Seq<u8>, rest: Seq<u8>)
    requires
        body.len() + 4 <= 0x400_0000,
    ensures
        frontend_read(framed(Some(kind), body) + rest).1 == rest,
        match frontend_of(kind, body) {
            Ok(message) => frontend_read(framed(Some(kind), body) + rest).0 == Ok::<_, Fault>(
                Some(message),
            ),
            Err(fault) => frontend_read(framed(Some(kind), body) + rest).0 == Err::<
                Option<FrontendView>,
                Fault,
            >(fault),
        },
        startup_read(framed(None, body) + rest).1 == rest,
        match opening_of(body) {
            Ok(message) => startup_read(framed(None, body) + rest).0 == Ok::<_, Fault>(
                Some(message),
            ),
            Err(fault) => startup_read(framed(None, body) + rest).0 == Err::<
                Option<FrontendView>,
                Fault,
            >(fault),
        },
        frontend_read(seq![]).0 == Ok::<Option<FrontendView>, Fault>(None),
        startup_read(seq![]).0 == Ok::<Option<FrontendView>, Fault>(None),
{
    law_frame_reads_back(kind, body, rest);
    law_opening_reads_back(body, rest);
}

/// Each message is written as the protocol has it: what opens a connection
/// without a type byte and with its number first, the others with their type
/// byte and their text.
pub proof fn law_a_clients_messages_are_written_as_the_protocol_has_them(message: FrontendView)
    ensures
        ({
            let kind = frontend_kind(message);
            let body = frontend_body(message);
            let nul = seq![0u8];
            match message {
                FrontendView::SslRequest => kind is None && body == seq![0x04u8, 0xd2, 0x16, 0x2f],
                FrontendView::Startup { user, database } => kind is None && body == seq![
                    0u8,
                    3,
                    0,
                    0,
                ] + (parameters_written(seq![("user"@, user), ("database"@, database)]) + nul),
                FrontendView::Password(password) => kind == Some(0x70u8) && body == encode_utf8(
                    password,
                ) + nul,
                FrontendView::Query(sql) => kind == Some(0x51u8) && body == encode_utf8(sql) + nul,
                FrontendView::Terminate => kind == Some(0x58u8) && body.len() == 0,
            }
        }),
{
    match message {
        FrontendView::Startup { user, database } => {
            let parameters = seq![("user"@, user), ("database"@, database)];
            let nul = seq![0u8];
            lemma_parameters_first(parameters, nul);
            assert(parameters.skip(1) == seq![("database"@, database)]);
            lemma_parameters_first(seq![("database"@, database)], nul);
            assert(seq![("database"@, database)].skip(1) == Seq::<(Seq<char>, Seq<char>)>::empty());
            assert(parameters_written(Seq::<(Seq<char>, Seq<char>)>::empty()) + nul == nul);
            assert(frontend_body(message) == seq![0u8, 3, 0, 0] + (parameters_written(parameters)
                + nul));
        },
        FrontendView::Password(text) => {
            assert(frontend_body(message) == encode_utf8(text) + seq![0u8]);
        },
        FrontendView::Query(text) => {
            assert(frontend_body(message) == encode_utf8(text) + seq![0u8]);
        },
        _ => {},
    }
}

} // verus!
