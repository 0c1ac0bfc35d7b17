use transport_postgresql::backend::{encode_backend, read_backend, Backend};
use transport_postgresql::wire::AUTH_CLEARTEXT;

#[test]
fn every_backend_message_round_trips() {
    for message in [
        Backend::Authentication(AUTH_CLEARTEXT),
        Backend::ParameterStatus {
            name: "server_version".into(),
            value: "16.0".into(),
        },
        Backend::BackendKeyData {
            process: 42,
            secret: -7,
        },
        Backend::ReadyForQuery(b'I'),
        Backend::RowDescription(vec!["id".into(), "payload".into()]),
        Backend::DataRow(vec![Some("1".into()), None, Some(String::new())]),
        Backend::CommandComplete("INSERT 0 1".into()),
        Backend::EmptyQueryResponse,
        Backend::ErrorResponse {
            severity: "FATAL".into(),
            code: "28P01".into(),
            message: "password authentication failed".into(),
        },
        Backend::Other(b'N'),
    ] {
        let bytes = encode_backend(&message);
        assert_eq!(
            read_backend(&mut bytes.as_slice()).expect("read"),
            Some(message)
        );
    }
    assert!(read_backend(&mut &b""[..]).expect("closed").is_none());
}

#[test]
fn what_is_not_a_backend_message_is_refused() {
    assert!(
        read_backend(&mut &[b'R', 0, 0, 0, 8, 0][..]).is_err(),
        "short"
    );
    assert!(
        read_backend(&mut &[b'R', 0x7f, 0, 0, 0][..]).is_err(),
        "too big"
    );
    assert!(
        read_backend(&mut &[b'C', 0, 0, 0, 6, b'x', b'y'][..]).is_err(),
        "a tag with no NUL"
    );
}

#[test]
fn messages_are_written_byte_by_byte() {
    assert_eq!(
        encode_backend(&Backend::BackendKeyData { process: 1, secret: -2 }),
        [b'K', 0, 0, 0, 12, 0, 0, 0, 1, 0xff, 0xff, 0xff, 0xfe]
    );
    assert_eq!(
        encode_backend(&Backend::RowDescription(vec!["a".into()])),
        [
            b'T', 0, 0, 0, 26, 0, 1, b'a', 0, 0, 0, 0, 0, 0, 0, 0, 0, 0, 25, 0xff, 0xff, 0xff,
            0xff, 0xff, 0xff, 0, 0
        ]
    );
    assert_eq!(
        encode_backend(&Backend::DataRow(vec![Some("xy".into()), None])),
        [b'D', 0, 0, 0, 16, 0, 2, 0, 0, 0, 2, b'x', b'y', 0xff, 0xff, 0xff, 0xff]
    );
    assert_eq!(
        encode_backend(&Backend::ErrorResponse {
            severity: "E".into(),
            code: "1".into(),
            message: "m".into(),
        }),
        [
            b'E', 0, 0, 0, 17, b'S', b'E', 0, b'V', b'E', 0, b'C', b'1', 0, b'M', b'm', 0, 0
        ]
    );
}

#[test]
fn a_message_is_read_whatever_follows_it() {
    let mut bytes = encode_backend(&Backend::CommandComplete("SELECT 1".into()));
    bytes.extend_from_slice(&encode_backend(&Backend::ReadyForQuery(b'I')));
    let mut reader = bytes.as_slice();
    assert_eq!(
        read_backend(&mut reader),
        Ok(Some(Backend::CommandComplete("SELECT 1".into())))
    );
    assert_eq!(read_backend(&mut reader), Ok(Some(Backend::ReadyForQuery(b'I'))));
    assert!(reader.is_empty());
}

#[test]
fn a_value_may_hold_what_a_wire_string_may_not() {
    let row = Backend::DataRow(vec![Some("a\0b".into()), Some("\u{1f418}".into())]);
    assert_eq!(read_backend(&mut encode_backend(&row).as_slice()), Ok(Some(row)));
    let cut = Backend::CommandComplete("a\0b".into());
    assert_eq!(
        read_backend(&mut encode_backend(&cut).as_slice()),
        Ok(Some(Backend::CommandComplete("a".into())))
    );
}

#[test]
fn fields_of_an_error_that_are_not_read_are_passed_over() {
    let bytes = [
        b'E', 0, 0, 0, 16, b'X', b'?', 0, b'C', b'0', 0, b'C', b'1', 0, 0, 9, 9,
    ];
    assert_eq!(
        read_backend(&mut &bytes[..]),
        Ok(Some(Backend::ErrorResponse {
            severity: String::new(),
            code: "1".into(),
            message: String::new(),
        }))
    );
    assert!(read_backend(&mut &[b'E', 0, 0, 0, 7, b'S', b'x', 0][..]).is_err(), "no end");
    assert!(read_backend(&mut &[b'D', 0, 0, 0, 10, 0, 1, 0, 0, 0, 9][..]).is_err(), "no value");
    assert!(read_backend(&mut &[b'T', 0, 0, 0, 8, 0, 1, b'a', 0][..]).is_err(), "no type");
    assert_eq!(
        read_backend(&mut &[b'D', 0, 0, 0, 6, 0xff, 0xff][..]),
        Ok(Some(Backend::DataRow(Vec::new())))
    );
}
