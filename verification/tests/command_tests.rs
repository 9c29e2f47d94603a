use placard::command::{Command, CommandError, parse_colour, parse_osc};
use placard::osc::{OscArg, OscMessage};
use placard::scene::{Flash, Rgb, flash_default};
use placard::seconds::Seconds;
use placard::time::{Duration, parse_iso};

fn rgb(s: &str) -> Rgb {
    s.parse().unwrap()
}

fn osc(addr: &str, args: Vec<OscArg>) -> OscMessage {
    OscMessage { addr: addr.to_string(), args }
}

fn string(s: &str) -> OscArg {
    OscArg::String(s.into())
}

fn seconds(v: f64) -> Seconds {
    Seconds { bits: v.to_bits(), text: v.to_string() }
}

fn float(f: f32) -> OscArg {
    OscArg::Float { secs: seconds(f64::from(f)), shown: f.to_string() }
}

fn double(d: f64) -> OscArg {
    OscArg::Double { secs: seconds(d), shown: format!("Double({d:?})") }
}

#[test]
fn osc_show_variants() {
    let m = osc("/placard/show", vec![string("HELLO")]);
    assert_eq!(
        parse_osc(&m).unwrap(),
        Command::Show { text: "HELLO".into(), bg: None, fg: None, flash: Flash::Off }
    );

    let m = osc("/placard/show", vec![string("GO"), string("#0b6e2e"), string("#ffffff")]);
    assert_eq!(
        parse_osc(&m).unwrap(),
        Command::Show {
            text: "GO".into(),
            bg: Some(rgb("#0b6e2e")),
            fg: Some(rgb("#ffffff")),
            flash: Flash::Off,
        }
    );
}

#[test]
fn osc_canned_and_colour() {
    let m = osc("/placard/canned", vec![string("go")]);
    assert_eq!(
        parse_osc(&m).unwrap(),
        Command::Canned { id: "go".into(), bg: None, fg: None, flash: None }
    );

    let m = osc("/placard/colour", vec![string("#ff0000")]);
    assert_eq!(
        parse_osc(&m).unwrap(),
        Command::Colour { bg: Some(rgb("#ff0000")), fg: None }
    );
}

#[test]
fn osc_flash() {
    // Flash without colours: no padding args needed.
    let m = osc("/placard/show", vec![string("SHOW STOP"), OscArg::Int(1)]);
    assert_eq!(
        parse_osc(&m).unwrap(),
        Command::Show {
            text: "SHOW STOP".into(),
            bg: None,
            fg: None,
            flash: Flash::For(flash_default()),
        }
    );
    // Colours and flash together, flag last.
    let m = osc("/placard/canned", vec![string("go"), string("0b6e2e"), OscArg::Int(1)]);
    assert_eq!(
        parse_osc(&m).unwrap(),
        Command::Canned {
            id: "go".into(),
            bg: Some(rgb("0b6e2e")),
            fg: None,
            flash: Some(Flash::For(flash_default())),
        }
    );
    // i 0 is an explicit "don't flash" override.
    let m = osc("/placard/canned", vec![string("show_stop"), OscArg::Int(0)]);
    assert_eq!(
        parse_osc(&m).unwrap(),
        Command::Canned {
            id: "show_stop".into(),
            bg: None,
            fg: None,
            flash: Some(Flash::Off),
        }
    );
    // A float is seconds; negative is a flash with no end.
    let m = osc("/placard/show", vec![string("X"), float(10.0)]);
    assert_eq!(
        parse_osc(&m).unwrap(),
        Command::Show {
            text: "X".into(),
            bg: None,
            fg: None,
            flash: Flash::For(Duration::from_secs(10)),
        }
    );
    let m = osc("/placard/canned", vec![string("show_stop"), float(-1.0)]);
    assert_eq!(
        parse_osc(&m).unwrap(),
        Command::Canned {
            id: "show_stop".into(),
            bg: None,
            fg: None,
            flash: Some(Flash::Forever),
        }
    );
    // An out-of-range float is rejected, not rounded or panicked on.
    let m = osc("/placard/show", vec![string("X"), float(f32::NAN)]);
    assert!(matches!(parse_osc(&m), Err(CommandError::BadFlash(_))));

    // Two ints make no sense.
    let m = osc("/placard/show", vec![string("X"), OscArg::Int(1), OscArg::Int(1)]);
    assert!(matches!(parse_osc(&m), Err(CommandError::WrongArgs { .. })));
}

#[test]
fn osc_countdowns() {
    let m = osc("/placard/countdown/to", vec![string("2026-09-08T18:30:00Z"), string("Doors")]);
    match parse_osc(&m).unwrap() {
        Command::CountdownTo { label, .. } => assert_eq!(label.as_deref(), Some("Doors")),
        other => panic!("unexpected {other:?}"),
    }

    let m = osc("/placard/countdown/secs", vec![OscArg::Int(90)]);
    assert_eq!(
        parse_osc(&m).unwrap(),
        Command::CountdownSecs { secs: 90, label: None, bg: None, fg: None }
    );
}

#[test]
fn osc_clear() {
    assert_eq!(parse_osc(&osc("/placard/clear", vec![])).unwrap(), Command::Clear);
}

#[test]
fn osc_errors() {
    // Unknown address.
    assert!(matches!(
        parse_osc(&osc("/placard/nope", vec![])),
        Err(CommandError::UnknownAddress(_))
    ));
    // Missing required arg.
    assert!(matches!(
        parse_osc(&osc("/placard/show", vec![])),
        Err(CommandError::WrongArgs { .. })
    ));
    // Wrong type: float where int expected.
    assert!(matches!(
        parse_osc(&osc("/placard/countdown/secs", vec![float(5.0)])),
        Err(CommandError::WrongArgs { .. })
    ));
    // Negative seconds.
    assert!(matches!(
        parse_osc(&osc("/placard/countdown/secs", vec![OscArg::Int(-5)])),
        Err(CommandError::WrongArgs { .. })
    ));
    // Bad colour string.
    assert!(matches!(
        parse_osc(&osc("/placard/colour", vec![string("red")])),
        Err(CommandError::BadColour(_))
    ));
    // Bad timestamp.
    assert!(matches!(
        parse_osc(&osc("/placard/countdown/to", vec![string("tomorrow")])),
        Err(CommandError::BadTimestamp(_))
    ));
    // Excess args.
    assert!(matches!(
        parse_osc(&osc("/placard/clear", vec![string("x")])),
        Err(CommandError::WrongArgs { .. })
    ));
}

#[test]
fn osc_tail_takes_colours_in_order_and_the_flash_anywhere() {
    let m = osc(
        "/placard/show",
        vec![string("X"), OscArg::Bool(true), string("111111"), string("222222")],
    );
    let want = Command::Show {
        text: "X".into(),
        bg: Some(rgb("111111")),
        fg: Some(rgb("222222")),
        flash: Flash::For(Duration::from_secs(3)),
    };
    assert_eq!(parse_osc(&m), Ok(want));

    // The place of the flash does not matter.
    for at in 0..3 {
        let mut args = vec![string("X"), string("111111"), string("222222")];
        args.insert(at + 1, float(-1.0));
        let want = Command::Show {
            text: "X".into(),
            bg: Some(rgb("111111")),
            fg: Some(rgb("222222")),
            flash: Flash::Forever,
        };
        assert_eq!(parse_osc(&osc("/placard/show", args)), Ok(want));
    }

    let long = osc("/placard/show", vec![string("X"), string("111111"), OscArg::Long(0)]);
    match parse_osc(&long) {
        Ok(Command::Show { bg, fg, flash, .. }) => {
            assert_eq!((bg, fg, flash), (Some(rgb("111111")), None, Flash::Off));
        }
        other => panic!("unexpected {other:?}"),
    }

    let wide = osc("/placard/canned", vec![string("go"), double(0.5)]);
    match parse_osc(&wide) {
        Ok(Command::Canned { flash, .. }) => {
            assert_eq!(flash, Some(Flash::For(Duration::from_millis(500))));
        }
        other => panic!("unexpected {other:?}"),
    }

    let wrong = Err(CommandError::WrongArgs {
        addr: "/placard/show".into(),
        expected: "s text [s bg] [s fg] [i flash | f seconds]",
    });
    let third = vec![string("X"), string("111111"), string("222222"), string("333333")];
    assert_eq!(parse_osc(&osc("/placard/show", third)), wrong);
    let blob = vec![string("X"), OscArg::Other("Nil".into())];
    assert_eq!(parse_osc(&osc("/placard/show", blob)), wrong);
    let mixed = vec![string("X"), OscArg::Bool(false), float(1.0)];
    assert_eq!(parse_osc(&osc("/placard/show", mixed)), wrong);

    // The first misfit decides.
    let two = vec![string("X"), string("red"), OscArg::Other("Nil".into())];
    assert_eq!(
        parse_osc(&osc("/placard/show", two)),
        Err(CommandError::BadColour("bad colour \"red\": expected rrggbb".into()))
    );
}

#[test]
fn osc_colour_and_countdown_take_one_more_string() {
    let m = osc("/placard/colour", vec![string("111111"), string("222222")]);
    assert_eq!(
        parse_osc(&m),
        Ok(Command::Colour { bg: Some(rgb("111111")), fg: Some(rgb("222222")) })
    );
    let wrong = CommandError::WrongArgs { addr: "/placard/colour".into(), expected: "s bg [s fg]" };
    let m = osc("/placard/colour", vec![string("111111"), OscArg::Int(1)]);
    assert_eq!(parse_osc(&m), Err(wrong.clone()));
    let m = osc("/placard/colour", vec![string("111111"), string("222222"), string("333333")]);
    assert_eq!(parse_osc(&m), Err(wrong));

    let m = osc("/placard/countdown/to", vec![string("2026-09-08T19:30:00+01:00")]);
    assert_eq!(
        parse_osc(&m),
        Ok(Command::CountdownTo {
            target: parse_iso("2026-09-08T18:30:00Z").unwrap(),
            label: None,
            bg: None,
            fg: None,
        })
    );
    let m = osc("/placard/countdown/secs", vec![OscArg::Int(300), string("House opens in")]);
    assert_eq!(
        parse_osc(&m),
        Ok(Command::CountdownSecs {
            secs: 300,
            label: Some("House opens in".into()),
            bg: None,
            fg: None,
        })
    );
    let m = osc("/placard/countdown/secs", vec![OscArg::Int(1), OscArg::Int(2)]);
    assert_eq!(
        parse_osc(&m),
        Err(CommandError::WrongArgs {
            addr: "/placard/countdown/secs".into(),
            expected: "i secs [s label]",
        })
    );
}

#[test]
fn queries_are_not_for_osc() {
    assert_eq!(
        parse_osc(&osc("/placard/status", vec![])),
        Err(CommandError::QueryNotSupported("status"))
    );
    assert_eq!(
        parse_osc(&osc("/placard/history", vec![])),
        Err(CommandError::QueryNotSupported("history"))
    );
}

#[test]
fn colour_arguments_are_colours() {
    assert_eq!(parse_colour("0b6e2e"), Ok(rgb("0b6e2e")));
    assert_eq!(
        parse_colour("red"),
        Err(CommandError::BadColour("bad colour \"red\": expected rrggbb".into()))
    );
}

#[test]
fn every_error_says_what_is_wrong() {
    let cases = [
        (CommandError::UnknownAddress("/x".into()), "unknown address /x"),
        (
            CommandError::WrongArgs { addr: "/placard/clear".into(), expected: "no args" },
            "/placard/clear: expected args no args",
        ),
        (CommandError::BadColour("bad".into()), "bad"),
        (
            CommandError::BadTimestamp("tomorrow".into()),
            "bad timestamp \"tomorrow\": expected ISO 8601, e.g. 2026-09-08T19:30:00Z",
        ),
        (CommandError::UnknownCanned("nope".into()), "unknown canned id \"nope\""),
        (CommandError::BadFlash("flash".into()), "flash"),
        (CommandError::BadJson("e".into()), "invalid JSON: e"),
        (CommandError::LineTooLong, "line exceeds 64 KiB"),
        (CommandError::InvalidUtf8, "invalid UTF-8"),
        (CommandError::QueryNotSupported("status"), "status is not available over OSC"),
        (CommandError::ShuttingDown, "shutting down"),
    ];
    for (error, said) in cases {
        assert_eq!(error.to_string(), said);
    }
}
