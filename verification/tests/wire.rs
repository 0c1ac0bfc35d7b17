use transport_postgresql::cursor::Cursor;
use transport_postgresql::wire::{
    body_length, frame, read_body, read_typed, wanted, Postgres, PostgresWrite, MAX_MESSAGE,
};
use transport_postgresql::writer::ByteWriter;

#[test]
fn a_frame_carries_its_length_and_a_body_reads_its_fields() {
    let framed = frame(Some(b'Q'), b"SELECT 1\0");
    assert_eq!(&framed[..5], &[b'Q', 0, 0, 0, 13], "the length counts itself");
    let (kind, body) = read_typed(&mut framed.as_slice()).expect("read").expect("one");
    assert_eq!(kind, b'Q');
    let mut cursor = Cursor::new(&body);
    assert_eq!(cursor.cstring().expect("sql"), "SELECT 1");
    assert!(read_typed(&mut &b""[..]).expect("closed").is_none());

    let mut body = Vec::new();
    body.cstring("id").count(3).length(70_000).byte(b'Z');
    let mut cursor = Cursor::new(&body);
    assert_eq!(cursor.cstring().expect("name"), "id");
    assert_eq!(cursor.count().expect("i16"), 3);
    assert_eq!(cursor.i32_be().expect("i32"), 70_000);
    assert_eq!(cursor.byte().expect("byte"), b'Z');
    let error = cursor.byte().expect_err("past the end");
    assert!(error.message.contains("runs past"), "{}", error.message);
}

#[test]
fn a_length_that_is_not_a_message_is_refused() {
    assert!(read_body(&mut &[0, 0, 0, 2][..], None).is_err(), "under four");
    assert!(
        read_body(&mut &[0x7f, 0, 0, 0][..], Some(b'R')).is_err(),
        "over what Xmip will read"
    );
    assert!(read_body(&mut &[0, 0, 0, 8, 1][..], Some(b'R')).is_err(), "breaks off");
    assert!(read_body(&mut &b""[..], None).expect("closed").is_none());
    assert!(Cursor::new(b"no NUL").cstring().is_err());
}

#[test]
fn each_refused_length_has_its_own_error() {
    let under = read_body(&mut &[0xff, 0xff, 0xff, 0xff][..], None).expect_err("negative");
    assert_eq!(under.message, "a message length under four");
    assert!(!under.retryable);
    let over = body_length(&[0x04, 0, 0, 1]).expect_err("one byte too many");
    assert_eq!(over.message, "a message over what Xmip will read");
    assert!(!over.retryable);
    assert_eq!(body_length(&[0x04, 0, 0, 4]), Err(over), "the length counts itself");
    assert_eq!(body_length(&[0x04, 0, 0, 0]), Ok(MAX_MESSAGE - 4));
    assert_eq!(body_length(&[0, 0, 0, 4]), Ok(0));
    let head = read_typed(&mut &[b'Z', 0, 0][..]).expect_err("no length");
    assert_eq!(head.message, "reading a message length: the message breaks off");
    assert!(head.retryable);
    let body = read_typed(&mut &[b'Z', 0, 0, 0, 5][..]).expect_err("no body");
    assert_eq!(body.message, "reading a message body: the message breaks off");
    assert!(body.retryable);
    let unended = Cursor::new(b"no NUL").cstring().expect_err("no NUL");
    assert!(unended.message.contains("without its delimiter"));
}

#[test]
fn reading_takes_one_message_and_leaves_the_next() {
    let mut sent = frame(Some(b'Q'), b"one\0");
    sent.extend_from_slice(&frame(Some(b'X'), b""));
    let mut reader = sent.as_slice();
    assert_eq!(read_typed(&mut reader), Ok(Some((b'Q', b"one\0".to_vec()))));
    assert_eq!(reader, &[b'X', 0, 0, 0, 4]);
    assert_eq!(read_typed(&mut reader), Ok(Some((b'X', Vec::new()))));
    assert_eq!(read_typed(&mut reader), Ok(None));
}

#[test]
fn what_is_wanted_next_adds_up_to_one_message() {
    for (typed, message) in [
        (true, frame(Some(b'D'), b"a row")),
        (true, frame(Some(b'X'), b"")),
        (false, frame(None, b"startup")),
    ] {
        let mut came = 0;
        let mut asked = Vec::new();
        loop {
            let more = wanted(&message[..came], typed).expect("a good length");
            if more == 0 {
                break;
            }
            asked.push(more);
            came += more;
        }
        assert_eq!(came, message.len());
        assert_eq!(asked[..2], if typed { [1, 4] } else { [1, 3] });
    }
    let refused = wanted(&[b'R', 0x7f, 0, 0, 0], true).expect_err("too long");
    assert_eq!(
        Err(refused),
        read_typed(&mut &[b'R', 0x7f, 0, 0, 0][..]),
        "what is refused while it is waited for is refused when it is read"
    );
}

#[test]
fn counts_and_lengths_saturate_and_a_negative_count_is_none() {
    let mut body = Vec::new();
    body.count(40_000).length(usize::MAX).i16_be(-1).i32_be(-2);
    assert_eq!(
        body,
        [0x7f, 0xff, 0x7f, 0xff, 0xff, 0xff, 0xff, 0xff, 0xff, 0xff, 0xff, 0xfe]
    );
    let mut cursor = Cursor::new(&body);
    assert_eq!(cursor.count(), Ok(32_767));
    assert_eq!(cursor.i32_be(), Ok(i32::MAX));
    assert_eq!(cursor.count(), Ok(0));
    assert_eq!(cursor.i32_be(), Ok(-2));
    assert!(cursor.skip(1).is_err());
}

#[test]
fn a_string_that_is_not_utf8_is_mended() {
    assert_eq!(Cursor::new(b"caf\xc3\xa9\0").cstring(), Ok("caf\u{e9}".to_string()));
    assert_eq!(Cursor::new(b"a\xffb\0").cstring(), Ok("a\u{fffd}b".to_string()));
    assert_eq!(Cursor::new(b"\xf0\x90\x80\0").cstring(), Ok("\u{fffd}".to_string()));
}

#[test]
fn a_whole_message_over_the_most_is_refused() {
    let longest = frame(Some(b'Q'), &vec![0; MAX_MESSAGE - 4]);
    assert_eq!(longest[1..5], [4, 0, 0, 0]);
    let (kind, body) = read_typed(&mut longest.as_slice()).expect("read").expect("one");
    assert_eq!((kind, body.len()), (b'Q', MAX_MESSAGE - 4));
    let over = frame(Some(b'Q'), &vec![0; MAX_MESSAGE - 3]);
    assert_eq!(over[1..5], [4, 0, 0, 1]);
    let error = read_body(&mut &over[1..], Some(b'Q')).expect_err("one byte too many");
    assert_eq!(error.message, "a message over what Xmip will read");
    assert_eq!(read_typed(&mut over.as_slice()), Err(error));
}

#[test]
fn a_message_cut_off_after_its_first_byte_is_refused() {
    let typed = frame(Some(b'Q'), b"x\0");
    for came in 1..typed.len() {
        let error = read_typed(&mut &typed[..came]).expect_err("cut off");
        let reading = if came < 5 { "length" } else { "body" };
        assert_eq!(
            error.message,
            format!("reading a message {reading}: the message breaks off")
        );
    }
    let opening = frame(None, b"x\0");
    for came in 1..opening.len() {
        assert!(read_body(&mut &opening[..came], None).is_err(), "{came}");
    }
    let over = frame(Some(b'Q'), &vec![0; MAX_MESSAGE]);
    for came in [1, 4, 5, 6, over.len() - 1] {
        let error = read_typed(&mut &over[..came]).expect_err("too long, and cut off");
        assert_eq!(error.retryable, came < 5, "{came}");
    }
}
