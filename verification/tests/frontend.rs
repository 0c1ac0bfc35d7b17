use transport_postgresql::frontend::{encode_frontend, read_frontend, read_startup, Frontend};

#[test]
fn every_frontend_message_round_trips() {
    let startup = Frontend::Startup {
        user: "xmip".into(),
        database: "orders".into(),
    };
    let bytes = encode_frontend(&startup);
    assert_eq!(
        &bytes[..8],
        &[0, 0, 0, 35, 0, 3, 0, 0],
        "the length counts itself"
    );
    assert_eq!(
        read_startup(&mut bytes.as_slice()).expect("read"),
        Some(startup)
    );
    let ssl = encode_frontend(&Frontend::SslRequest);
    assert_eq!(
        read_startup(&mut ssl.as_slice()).expect("read"),
        Some(Frontend::SslRequest)
    );
    assert!(read_startup(&mut &b""[..]).expect("closed").is_none());
    for message in [
        Frontend::Password("secret".into()),
        Frontend::Query("SELECT 1".into()),
        Frontend::Terminate,
    ] {
        let bytes = encode_frontend(&message);
        assert_eq!(
            read_frontend(&mut bytes.as_slice()).expect("read"),
            Some(message)
        );
    }
    assert!(read_frontend(&mut &b""[..]).expect("closed").is_none());
}

#[test]
fn what_is_not_a_frontend_message_is_refused() {
    assert!(
        read_startup(&mut &[0, 0, 0, 8, 0, 2, 0, 0][..]).is_err(),
        "2.0"
    );
    assert!(read_startup(&mut &[0, 0, 0, 2][..]).is_err(), "under four");
    assert!(
        read_frontend(&mut &[b'B', 0, 0, 0, 4][..]).is_err(),
        "extended flow"
    );
    assert!(
        read_frontend(&mut &[b'Q', 0, 0, 0, 6, b'x'][..]).is_err(),
        "no NUL"
    );
}

#[test]
fn what_is_refused_is_named() {
    let version = read_startup(&mut &[0, 0, 0, 8, 0, 2, 0, 0][..]).expect_err("2.0");
    assert_eq!(version.message, "protocol 131072 is not 3.0");
    assert!(!version.retryable);
    let negative = read_startup(&mut &[0, 0, 0, 8, 0x80, 0, 0, 0][..]).expect_err("negative");
    assert_eq!(negative.message, "protocol -2147483648 is not 3.0");
    let extended = read_frontend(&mut &[b'B', 0, 0, 0, 4][..]).expect_err("extended flow");
    assert_eq!(extended.message, "'B' is not a message the simple flow sends");
    let newline = read_frontend(&mut &[b'\n', 0, 0, 0, 4][..]).expect_err("a newline");
    assert_eq!(newline.message, "'\\n' is not a message the simple flow sends");
    let high = read_frontend(&mut &[0xe9, 0, 0, 0, 4][..]).expect_err("not ASCII");
    assert_eq!(high.message, "'\u{e9}' is not a message the simple flow sends");
}

#[test]
fn a_database_that_is_not_named_is_the_users_own() {
    let body = b"\0\x03\0\0user\0ann\0application_name\0x\0\0";
    let mut bytes = vec![0, 0, 0, body.len() as u8 + 4];
    bytes.extend_from_slice(body);
    assert_eq!(
        read_startup(&mut bytes.as_slice()),
        Ok(Some(Frontend::Startup {
            user: "ann".into(),
            database: "ann".into(),
        }))
    );
    let twice = b"\0\x03\0\0database\0a\0user\0u\0database\0b\0\0";
    let mut bytes = vec![0, 0, 0, twice.len() as u8 + 4];
    bytes.extend_from_slice(twice);
    assert_eq!(
        read_startup(&mut bytes.as_slice()),
        Ok(Some(Frontend::Startup {
            user: "u".into(),
            database: "b".into(),
        }))
    );
}

#[test]
fn a_message_ends_where_its_length_says() {
    let mut bytes = encode_frontend(&Frontend::SslRequest);
    bytes.extend_from_slice(&encode_frontend(&Frontend::Startup {
        user: String::new(),
        database: "d".into(),
    }));
    bytes.extend_from_slice(&encode_frontend(&Frontend::Terminate));
    let mut reader = bytes.as_slice();
    assert_eq!(read_startup(&mut reader), Ok(Some(Frontend::SslRequest)));
    assert_eq!(
        read_startup(&mut reader),
        Ok(Some(Frontend::Startup {
            user: String::new(),
            database: "d".into(),
        }))
    );
    assert_eq!(read_frontend(&mut reader), Ok(Some(Frontend::Terminate)));
    assert_eq!(read_frontend(&mut reader), Ok(None));
}
