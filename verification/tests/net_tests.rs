use placard::command::CommandError;
use placard::net::{Line, MAX_LINE, READ_LIMIT, http_code, reply_json, take_line};
use placard::scene::{Content, Rgb, Scene};
use placard::state::Reply;
use placard::status::{Release, report};
use placard::time::parse_iso;

fn status_reply() -> Reply {
    let scene = Scene {
        bg: Rgb::black(),
        fg: Rgb::black(),
        content: Content::Text { text: "GO".into() },
    };
    let now = parse_iso("2026-09-08T18:30:00Z").unwrap();
    let release = Release { version: "0.1.0", build: "dev" };
    Reply::Status(report(&scene, None, 0, None, now, None, release))
}

#[test]
fn replies_have_one_json_shape() {
    assert_eq!(reply_json(&Ok(Reply::Done), None), r#"{"ok":true}"#);
    assert_eq!(
        reply_json(&Err(CommandError::UnknownCanned("nope".into())), None),
        r#"{"ok":false,"error":"unknown canned id \"nope\""}"#
    );
    assert_eq!(reply_json(&Ok(status_reply()), Some("{\"ok\":true}".into())), "{\"ok\":true}");
    assert_eq!(
        reply_json(&Ok(status_reply()), None),
        r#"{"ok":false,"error":"status serialisation failed"}"#
    );
    assert_eq!(
        reply_json(&Ok(Reply::History(vec![])), Some("[1,2]".into())),
        r#"{"ok":true,"history":[1,2]}"#
    );
    assert_eq!(
        reply_json(&Ok(Reply::History(vec![])), None),
        r#"{"ok":false,"error":"history serialisation failed"}"#
    );
}

#[test]
fn reasons_survive_json() {
    let reason = "a\"b\\c/d\u{8}\u{c}\n\r\t\u{0}\u{1f}\u{7f}é\u{2028}😀";
    let reply = reply_json(&Err(CommandError::BadColour(reason.into())), None);
    let read: serde_json::Value = serde_json::from_str(&reply).unwrap();
    assert_eq!(read["ok"], false);
    assert_eq!(read["error"], reason);
    assert_eq!(
        reply_json(&Err(CommandError::BadColour("\u{1}\u{8}\u{c}\u{1f}\t".into())), None),
        "{\"ok\":false,\"error\":\"\\u0001\\b\\f\\u001f\\t\"}"
    );
}

#[test]
fn http_codes_tell_clients_faults_from_ours() {
    let rejected = Err(CommandError::LineTooLong);
    assert_eq!(http_code(&Ok(Reply::Done), false), 200);
    assert_eq!(http_code(&rejected, false), 400);
    assert_eq!(http_code(&Ok(status_reply()), true), 200);
    assert_eq!(http_code(&rejected, true), 500);
}

#[test]
fn lines_are_trimmed_and_blank_ones_skipped() {
    for line in ["{}\n", "{}\r\n", "  {} \r\n", "{}", "\t{}\r\r\n"] {
        assert_eq!(take_line(line.as_bytes().to_vec()), Line::Command("{}".into()), "{line:?}");
    }
    for line in ["\n", "\r\n", "", "   \n", "\u{2003}\n"] {
        assert_eq!(take_line(line.as_bytes().to_vec()), Line::Blank, "{line:?}");
    }
}

#[test]
fn long_lines_are_rejected_by_content_alone() {
    let exact = vec![b'x'; MAX_LINE];
    for end in ["", "\n", "\r\n"] {
        let mut line = exact.clone();
        line.extend(end.as_bytes());
        assert!(line.len() < READ_LIMIT);
        assert_eq!(take_line(line), Line::Command("x".repeat(MAX_LINE)));
    }
    let over = vec![b'x'; MAX_LINE + 1];
    for end in ["", "\n", "\r\n"] {
        let mut line = over.clone();
        line.extend(end.as_bytes());
        assert_eq!(
            take_line(line),
            Line::Reject(CommandError::LineTooLong, "x".repeat(MAX_LINE + 1))
        );
    }
    // Cut off by the read limit, whatever the last byte read is.
    for last in [b'x', b'\r'] {
        let mut line = vec![b'x'; READ_LIMIT];
        line[READ_LIMIT - 1] = last;
        assert!(matches!(take_line(line), Line::Reject(CommandError::LineTooLong, _)));
    }
}

#[test]
fn lines_that_are_not_utf8_are_rejected_lossily() {
    assert_eq!(
        take_line(b"a\xffb\n".to_vec()),
        Line::Reject(CommandError::InvalidUtf8, "a\u{fffd}b".into())
    );
    // Too long comes before not UTF-8.
    let mut line = vec![b'x'; MAX_LINE];
    line.push(0xff);
    match take_line(line) {
        Line::Reject(CommandError::LineTooLong, raw) => assert!(raw.ends_with("x\u{fffd}")),
        other => panic!("unexpected {other:?}"),
    }
}
