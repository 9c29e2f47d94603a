use placard::command::{Command, CommandError};
use placard::config::{
    Canned, CannedMessages, Clock, ClockPosition, Config, Defaults, Display, Net,
};
use placard::history::{
    HISTORY_CAP, HISTORY_COMPACT_EVERY, HISTORY_RAW_CAP, HistoryEntry, truncate_raw,
};
use placard::layout::{MAX_DISPLAY_CHARS, MAX_DISPLAY_LINES, MIN_FONT_PX};
use placard::render::derive_spec;
use placard::scene::{Content, Flash, Rgb, Scene, flash_default};
use placard::state::{
    Envelope, Outcome, PersistedState, Reply, RunningFlash, StateThread, flash_invert,
};
use placard::status::{ContentStatus, FlashStatus, Release, report};
use placard::time::{Duration, TimeZone, Timestamp, parse_iso};

const LINE_H: f64 = 1.25;

fn t0() -> Timestamp {
    parse_iso("2026-09-08T18:30:00Z").unwrap()
}

fn t0_plus(secs: i64) -> Timestamp {
    Timestamp::new(t0().unix_secs() + secs, 0).unwrap()
}

fn rgb(s: &str) -> Rgb {
    s.parse().unwrap()
}

fn release() -> Release {
    Release { version: "0.1.0", build: "dev" }
}

fn at(ms: u64) -> Duration {
    Duration::from_millis(ms)
}

fn test_config() -> Config {
    let mut canned = CannedMessages::new();
    canned.insert(
        "go".into(),
        Canned { text: "GO".into(), bg: Some(rgb("0b6e2e")), fg: None, flash: Flash::Off },
    );
    canned.insert(
        "stop".into(),
        Canned { text: "STOP".into(), bg: None, fg: Some(rgb("8a0000")), flash: Flash::Forever },
    );
    Config {
        display: Display {
            width: 1920,
            height: 1080,
            fps: 50,
            font: "Inter Bold 120".into(),
            padding_x: 96,
            padding_y: 64,
        },
        net: Net { osc_port: 9000, tcp_port: 9001, http_port: 8080 },
        clock: Clock {
            timezone: TimeZone::find("UTC").unwrap(),
            font: "Inter Semibold 40".into(),
            position: ClockPosition::BottomRight,
        },
        defaults: Defaults { bg: rgb("000000"), fg: rgb("ffffff"), boot_scene: "go".into() },
        canned,
    }
}

fn scene_text(text: &str) -> Scene {
    Scene { bg: Rgb::black(), fg: rgb("#ffffff"), content: Content::Text { text: text.into() } }
}

fn scene_countdown(secs: i64, label: Option<&str>) -> Scene {
    Scene {
        bg: Rgb::black(),
        fg: rgb("#ffffff"),
        content: Content::Countdown { target: t0_plus(secs), label: label.map(Into::into) },
    }
}

fn boot() -> StateThread {
    restart(None, vec![])
}

fn restart(saved: Option<PersistedState>, lines: Vec<Option<HistoryEntry>>) -> StateThread {
    StateThread::new(test_config(), saved, lines, at(0), release()).0
}

fn envelope(command: Result<Command, CommandError>, raw: &str) -> Envelope {
    Envelope { command, raw: raw.into(), via: "tcp", from: None }
}

fn send(state: &mut StateThread, command: Command) -> Outcome {
    state.handle(envelope(Ok(command), ""), t0(), at(0))
}

fn show(text: &str, flash: Flash) -> Command {
    Command::Show { text: text.into(), bg: None, fg: None, flash }
}

fn history_of(state: &mut StateThread) -> Vec<HistoryEntry> {
    match send(state, Command::History).answer {
        Ok(Reply::History(entries)) => entries,
        other => panic!("unexpected {other:?}"),
    }
}

#[test]
fn derive_escapes_markup_in_text() {
    let spec = derive_spec(&scene_text("<b>&\"</b>"), t0(), &test_config(), false);
    assert_eq!(spec.text_markup, "&lt;b&gt;&amp;&quot;&lt;/b&gt;");
}

#[test]
fn derive_wraps_countdown_label_and_escapes_it() {
    let scene = scene_countdown(90, Some("Doors <open>"));
    let spec = derive_spec(&scene, t0(), &test_config(), false);
    assert_eq!(spec.text_markup, "<span size=\"60%\">Doors &lt;open&gt;</span>\n1:30");
}

#[test]
fn derive_countdown_without_label_is_just_digits() {
    let scene = scene_countdown(-7, None);
    assert_eq!(derive_spec(&scene, t0(), &test_config(), false).text_markup, "-0:07");
}

#[test]
fn short_text_gets_max_size() {
    let spec = derive_spec(&scene_text("GO"), t0(), &test_config(), false);
    assert_eq!(spec.text_px, test_config().display.max_font_px());
}

#[test]
fn long_text_shrinks_and_never_hits_the_floor() {
    let text = "KILL ALL HUMANS, KILL ALL HUMANS, MUST KILL ALL HUMANS... ".repeat(7);
    let spec = derive_spec(&scene_text(&text), t0(), &test_config(), false);
    let max = test_config().display.max_font_px();
    assert!(spec.text_px < max, "400 chars must shrink below {max}");
    assert!(spec.text_px > MIN_FONT_PX, "must stay readable");
}

#[test]
fn fit_is_monotonic_in_text_length() {
    let cfg = test_config();
    let sizes: Vec<u32> = [1usize, 4, 16, 64, 256]
        .iter()
        .map(|n| derive_spec(&scene_text(&"HUMANS ".repeat(*n)), t0(), &cfg, false).text_px)
        .collect();
    let mut sorted = sizes.clone();
    sorted.sort_unstable_by(|a, b| b.cmp(a));
    assert_eq!(sizes, sorted, "more text must never mean bigger text");
}

#[test]
fn unbreakable_word_is_bounded_by_width() {
    let spec = derive_spec(&scene_text(&"M".repeat(60)), t0(), &test_config(), false);
    // 60 'M's at their estimated 1.0 em advance must fit in 1728 px.
    assert!(f64::from(spec.text_px) * 60.0 <= 1728.0);
}

#[test]
fn wide_glyphs_shrink_more_than_narrow_ones() {
    let cfg = test_config();
    let wide = derive_spec(&scene_text(&"WM ".repeat(60)), t0(), &cfg, false).text_px;
    let narrow = derive_spec(&scene_text(&"il ".repeat(60)), t0(), &cfg, false).text_px;
    assert!(
        wide < narrow,
        "wide-glyph text must be sized smaller ({wide} vs {narrow})"
    );
}

#[test]
fn degenerate_input_is_clamped_instead_of_blanking() {
    let cfg = test_config();
    // Hundreds of newlines: without the clamp no font size fits and the whole
    // layout would be culled.
    let spec = derive_spec(&scene_text(&"a\n".repeat(300)), t0(), &cfg, false);
    assert!(spec.text_markup.lines().count() <= MAX_DISPLAY_LINES);
    assert!(spec.text_markup.ends_with('…'));

    // One enormous unbroken word.
    let spec = derive_spec(&scene_text(&"W".repeat(60_000)), t0(), &cfg, false);
    assert!(spec.text_markup.chars().count() <= MAX_DISPLAY_CHARS + 1);
    assert!(spec.text_markup.ends_with('…'));

    // A degenerate label too.
    let scene = scene_countdown(90, Some(&"x\n".repeat(300)));
    let spec = derive_spec(&scene, t0(), &cfg, false);
    assert!(spec.text_markup.lines().count() <= MAX_DISPLAY_LINES + 2);

    // Ordinary text is untouched.
    let spec = derive_spec(&scene_text("KILL ALL HUMANS"), t0(), &cfg, false);
    assert_eq!(spec.text_markup, "KILL ALL HUMANS");
}

#[test]
fn multiline_countdown_label_counts_every_line() {
    let cfg = test_config();
    let scene_with = |label: &str| scene_countdown(90, Some(label));
    let one = derive_spec(&scene_with("HOLD"), t0(), &cfg, false).text_px;
    let many = derive_spec(&scene_with(&"HOLD\n".repeat(12)), t0(), &cfg, false).text_px;
    assert!(
        many < one,
        "a 12-line label must shrink the layout ({many} vs {one})"
    );
    // And the shrunk layout must actually fit the frame estimate.
    assert!(f64::from(many) * 0.6 * 12.0 * LINE_H + f64::from(many) * LINE_H <= 952.0 * 1.01);
}

#[test]
fn history_records_accepted_and_rejected_but_not_queries() {
    let mut state = boot();
    let sent = r#"{"cmd":"show","text":"GO"}"#;
    state.handle(envelope(Ok(show("GO", Flash::Off)), sent), t0(), at(0));
    let nope = Err(CommandError::BadJson("nope".into()));
    state.handle(envelope(nope, "not json"), t0(), at(0));
    state.handle(envelope(Ok(Command::Status), ""), t0(), at(0));

    let entries = history_of(&mut state);
    // Newest first; the status query and the history query are absent.
    assert_eq!(entries.len(), 2);
    assert_eq!(entries[0].raw, "not json");
    assert!(!entries[0].ok);
    assert_eq!(entries[0].error.as_deref(), Some("invalid JSON: nope"));
    assert_eq!(entries[1].raw, r#"{"cmd":"show","text":"GO"}"#);
    assert!(entries[1].ok);
    assert_eq!(entries[1].via, "tcp");
}

#[test]
fn history_is_a_ring_and_truncates_long_raw() {
    let mut state = boot();
    for i in 0..(HISTORY_CAP + 5) {
        let env = envelope(
            Err(CommandError::BadJson(format!("e{i}"))),
            &format!("line {i} {}", "x".repeat(2000)),
        );
        state.handle(env, t0(), at(0));
    }
    let entries = history_of(&mut state);
    assert_eq!(entries.len(), HISTORY_CAP);
    // Oldest five fell off the front; newest is the last sent.
    assert!(entries[0].raw.starts_with(&format!("line {}", HISTORY_CAP + 4)));
    assert!(entries[0].raw.ends_with('…'));
    assert!(entries[0].raw.len() < 600);
    assert!(entries[HISTORY_CAP - 1].raw.starts_with("line 5 "));
}

#[test]
fn raw_text_is_cut_by_characters() {
    let exact = "é".repeat(HISTORY_RAW_CAP);
    assert_eq!(truncate_raw(&exact), exact);
    assert_eq!(truncate_raw(&format!("{exact}x")), format!("{exact}…"));
    assert_eq!(truncate_raw(""), "");
}

#[test]
fn history_comes_back_from_the_log() {
    let mut state = boot();
    let mut log: Vec<Option<HistoryEntry>> = Vec::new();
    for i in 0..3 {
        let error = Err(CommandError::BadJson(format!("e{i}")));
        log.push(state.handle(envelope(error, &format!("line {i}")), t0(), at(0)).entry);
    }
    // A torn final line must not poison the load.
    log.push(None);
    let mut reborn = restart(None, log);
    let entries = history_of(&mut reborn);
    assert_eq!(entries.len(), 3);
    assert_eq!(entries[0].raw, "line 2");
    assert_eq!(entries[2].raw, "line 0");
    assert_eq!(entries[0].via, "tcp");
    assert_eq!(entries, history_of(&mut state));
}

#[test]
fn oversized_log_is_due_for_compaction_at_load() {
    let entry = |i: usize| HistoryEntry {
        at: t0(),
        via: "tcp".into(),
        from: None,
        raw: format!("m{i}"),
        ok: true,
        error: None,
    };
    let lines = |n: usize| (0..n).map(|i| Some(entry(i))).collect::<Vec<_>>();
    let start = |n: usize| StateThread::new(test_config(), None, lines(n), at(0), release());
    assert!(!start(HISTORY_CAP).1);
    let (state, due) = start(HISTORY_CAP * 3);
    assert!(due);
    let compacted = state.compacted();
    assert_eq!(compacted.len(), HISTORY_CAP);
    assert_eq!(compacted[0].raw, format!("m{}", HISTORY_CAP * 2));
    // Lines that don't read count towards the size, not towards the ring.
    let (state, due) = StateThread::new(test_config(), None, vec![None; 201], at(0), release());
    assert!(due);
    assert!(state.compacted().is_empty());
}

#[test]
fn log_is_compacted_every_so_often_and_reloads_the_ring() {
    let mut state = boot();
    let mut log: Vec<Option<HistoryEntry>> = Vec::new();
    let mut compactions = 0;
    for i in 0..(HISTORY_COMPACT_EVERY + 3) {
        let error = Err(CommandError::BadJson("e".into()));
        log.push(state.handle(envelope(error, &format!("m{i}")), t0(), at(0)).entry);
        if state.appended() {
            compactions += 1;
            log = state.compacted().into_iter().map(Some).collect();
        }
        assert!(log.len() < HISTORY_CAP + HISTORY_COMPACT_EVERY);
    }
    assert_eq!(compactions, 1);
    assert_eq!(log.len(), HISTORY_CAP + 3);
    assert_eq!(history_of(&mut restart(None, log)), history_of(&mut state));
}

#[test]
fn flash_starts_inverted_and_settles_after_three_seconds() {
    let at = |ms: u64| flash_invert(Duration::from_millis(ms), Some(flash_default()));
    assert_eq!(at(0), Some(true));
    assert_eq!(at(499), Some(true));
    assert_eq!(at(500), Some(false));
    assert_eq!(at(999), Some(false));
    assert_eq!(at(1000), Some(true));
    assert_eq!(at(2500), Some(false));
    assert_eq!(at(2999), Some(false));
    assert_eq!(at(3000), None);
    assert_eq!(at(60_000), None);
}

#[test]
fn endless_flash_never_settles() {
    for ms in [0u64, 499, 500, 3_000, 86_400_000] {
        assert!(
            flash_invert(Duration::from_millis(ms), None).is_some(),
            "an endless flash must still be flashing at {ms}ms"
        );
    }
}

#[test]
fn only_an_endless_flash_survives_a_restart() {
    let mut state = boot();
    // A timed flash is transient: it must not persist.
    let out = send(&mut state, show("BRIEF", Flash::For(Duration::from_secs(3))));
    assert!(state.active_flash.is_some());
    let reborn = restart(out.persist, vec![]);
    assert!(reborn.active_flash.is_none(), "a timed flash must not resume after a restart");
    assert_eq!(reborn.scene.content, Content::Text { text: "BRIEF".into() });

    // An endless one is part of the state and must come back flashing.
    let out = send(&mut state, show("SHOW STOP", Flash::Forever));
    let mut reborn = restart(out.persist, vec![]);
    assert_eq!(reborn.active_flash, Some(RunningFlash { started: at(0), duration: None }));
    assert_eq!(reborn.flash_status(at(5)), Some(FlashStatus::Forever { infinite: true }));

    // And any later command ends it, in the restarted process too.
    let out = send(&mut reborn, Command::Clear);
    assert!(reborn.active_flash.is_none());
    assert!(restart(out.persist, vec![]).active_flash.is_none());
}

#[test]
fn flash_toggles_the_specs_that_are_pushed() {
    let mut state = boot();
    assert!(state.push_if_changed(t0(), at(0)).is_some());
    assert!(state.push_if_changed(t0(), at(0)).is_none());
    assert_eq!(state.tick_ms(), 250);
    let out = state.handle(
        envelope(
            Ok(Command::Show {
                text: "SHOW STOP".into(),
                bg: Some(rgb("8a0000")),
                fg: Some(rgb("ffffff")),
                flash: Flash::For(flash_default()),
            }),
            "",
        ),
        t0(),
        at(1000),
    );
    assert_eq!(out.answer, Ok(Reply::Done));
    assert_eq!(state.tick_ms(), 50);
    let mut seen = Vec::new();
    for ms in (1000..4500).step_by(50) {
        if let Some(spec) = state.push_if_changed(t0(), at(ms)) {
            assert_eq!(spec.text_markup, "SHOW STOP");
            seen.push((ms, spec.bg_argb, spec.text_argb));
        }
    }
    let (bg, fg) = (0xff8a0000, 0xffffffff);
    assert_eq!(
        seen,
        [
            (1000, fg, bg),
            (1500, bg, fg),
            (2000, fg, bg),
            (2500, bg, fg),
            (3000, fg, bg),
            (3500, bg, fg),
        ]
    );
    assert!(state.active_flash.is_none());
    assert_eq!(state.tick_ms(), 250);
    // The clock moves on: one new spec a second.
    assert_eq!(state.push_if_changed(t0_plus(1), at(5000)).unwrap().clock_text, "18:30:01");
}

#[test]
fn timed_flash_reports_what_remains() {
    let mut state = boot();
    assert_eq!(state.flash_status(at(0)), None);
    state.handle(envelope(Ok(show("X", Flash::For(flash_default()))), ""), t0(), at(1000));
    assert_eq!(state.flash_status(at(2250)), Some(FlashStatus::Timed { remaining: at(1750) }));
    assert_eq!(state.flash_status(at(9000)), Some(FlashStatus::Timed { remaining: at(0) }));
}

#[test]
fn derive_invert_swaps_colours_only() {
    let scene = Scene {
        bg: rgb("8a0000"),
        fg: rgb("ffffff"),
        content: Content::Text { text: "X".into() },
    };
    let normal = derive_spec(&scene, t0(), &test_config(), false);
    let inverted = derive_spec(&scene, t0(), &test_config(), true);
    assert_eq!(inverted.bg_argb, normal.text_argb);
    assert_eq!(inverted.text_argb, normal.bg_argb);
    assert_eq!(inverted.text_markup, normal.text_markup);
    assert_eq!(inverted.text_px, normal.text_px);
}

#[test]
fn derive_colours_pack_opaque() {
    let scene = Scene {
        bg: rgb("#8a0000"),
        fg: rgb("#ffffff"),
        content: Content::Text { text: "X".into() },
    };
    let spec = derive_spec(&scene, t0(), &test_config(), false);
    assert_eq!(spec.bg_argb, 0xff8a0000);
    assert_eq!(spec.text_argb, 0xffffffff);
}

#[test]
fn status_serialises_countdown_with_display() {
    let scene = Scene {
        bg: rgb("8a0000"),
        fg: rgb("ffffff"),
        content: Content::Countdown {
            target: parse_iso("2026-09-08T18:30:00Z").unwrap(),
            label: Some("House opens in".into()),
        },
    };
    let now = parse_iso("2026-09-08T18:30:42Z").unwrap();
    let report = report(&scene, None, 8123, None, now, None, release());
    assert!(report.ok);
    assert_eq!(report.scene.bg.to_string(), "8a0000");
    assert_eq!(
        report.scene.content,
        ContentStatus::Countdown {
            target: parse_iso("2026-09-08T18:30:00Z").unwrap(),
            label: Some("House opens in".into()),
            display: "-0:42".into(),
        }
    );
    assert_eq!(report.uptime_secs, 8123);
    assert_eq!(report.version, "0.1.0");
    assert_eq!(report.build, "dev");
}

#[test]
fn status_serialises_text_scene() {
    let scene = Scene {
        bg: rgb("000000"),
        fg: rgb("ffffff"),
        content: Content::Text { text: "GO".into() },
    };
    let report = report(
        &scene,
        Some("go".into()),
        1,
        None,
        parse_iso("2026-09-08T18:30:00Z").unwrap(),
        Some(FlashStatus::Forever { infinite: true }),
        release(),
    );
    assert_eq!(
        report.scene.content,
        ContentStatus::Text { text: "GO".into(), display: "GO".into() }
    );
    assert_eq!(report.canned_id.as_deref(), Some("go"));
}

#[test]
fn status_tells_the_whole_state() {
    let mut state = boot();
    state.handle(
        Envelope {
            command: Ok(Command::Canned { id: "stop".into(), bg: None, fg: None, flash: None }),
            raw: "x".into(),
            via: "osc",
            from: Some("192.168.10.20:53101".into()),
        },
        t0(),
        at(0),
    );
    let report = match state.handle(envelope(Ok(Command::Status), ""), t0_plus(5), at(7999)).answer {
        Ok(Reply::Status(report)) => report,
        other => panic!("unexpected {other:?}"),
    };
    assert_eq!(report.scene.bg, rgb("000000"));
    assert_eq!(report.scene.fg, rgb("8a0000"));
    assert_eq!(report.canned_id.as_deref(), Some("stop"));
    assert_eq!(report.flash, Some(FlashStatus::Forever { infinite: true }));
    assert_eq!(report.uptime_secs, 7);
    let last = report.last_command.unwrap();
    assert_eq!((last.at, last.via), (t0(), "osc"));
    assert_eq!(last.from.as_deref(), Some("192.168.10.20:53101"));
}

#[test]
fn commands_change_what_they_name() {
    let mut state = boot();
    // The boot scene is the canned message, its own colours over the defaults.
    assert_eq!(state.scene.bg, rgb("0b6e2e"));
    assert_eq!(state.scene.fg, rgb("ffffff"));
    assert_eq!(state.canned_id.as_deref(), Some("go"));
    assert!(state.active_flash.is_none());

    // Colours left out stay.
    send(&mut state, show("HELLO", Flash::Off));
    assert_eq!(state.scene.bg, rgb("0b6e2e"));
    assert_eq!(state.canned_id, None);

    send(&mut state, Command::Colour { bg: None, fg: Some(rgb("111111")) });
    assert_eq!(state.scene, Scene {
        bg: rgb("0b6e2e"),
        fg: rgb("111111"),
        content: Content::Text { text: "HELLO".into() },
    });

    let canned = |bg, flash| Command::Canned { id: "stop".into(), bg, fg: None, flash };
    send(&mut state, canned(Some(rgb("222222")), Some(Flash::Off)));
    assert_eq!((state.scene.bg, state.scene.fg), (rgb("222222"), rgb("8a0000")));
    assert!(state.active_flash.is_none());
    send(&mut state, canned(None, None));
    assert_eq!((state.scene.bg, state.scene.fg), (rgb("000000"), rgb("8a0000")));
    assert!(state.active_flash.is_some());

    let label = Some("Doors".to_string());
    send(&mut state, Command::CountdownSecs { secs: 90, label: label.clone(), bg: None, fg: None });
    assert_eq!(state.scene.content, Content::Countdown { target: t0_plus(90), label });
    assert!(state.active_flash.is_none());
    let secs = state.scene.clone();
    send(
        &mut state,
        Command::CountdownTo {
            target: t0_plus(90),
            label: Some("Doors".into()),
            bg: None,
            fg: None,
        },
    );
    assert_eq!(state.scene, secs);

    send(&mut state, Command::Clear);
    assert_eq!(state.scene, Scene::cleared(rgb("ffffff")));
    assert_eq!(state.canned_id, None);
}

#[test]
fn rejected_messages_leave_the_scene() {
    let mut state = boot();
    let before = (state.scene.clone(), state.canned_id.clone());
    let out = send(
        &mut state,
        Command::Canned { id: "nope".into(), bg: Some(rgb("111111")), fg: None, flash: None },
    );
    assert_eq!(out.answer, Err(CommandError::UnknownCanned("nope".into())));
    assert!(out.persist.is_none());
    assert_eq!(out.entry.unwrap().error.as_deref(), Some("unknown canned id \"nope\""));
    let out = state.handle(envelope(Err(CommandError::LineTooLong), "x"), t0(), at(0));
    assert_eq!(out.answer, Err(CommandError::LineTooLong));
    assert!(out.persist.is_none());
    assert_eq!((state.scene.clone(), state.canned_id.clone()), before);
    assert!(state.last_command.is_none());
}

#[test]
fn queries_are_neither_recorded_nor_persisted() {
    let mut state = boot();
    send(&mut state, show("X", Flash::Forever));
    for query in [Command::Status, Command::History] {
        let out = send(&mut state, query);
        assert!(out.answer.is_ok() && out.entry.is_none() && out.persist.is_none());
    }
    assert!(state.active_flash.is_some());
    assert_eq!(history_of(&mut state).len(), 1);
}

#[test]
fn a_restart_restores_the_scene() {
    let mut state = boot();
    let out = send(
        &mut state,
        Command::Canned { id: "go".into(), bg: None, fg: Some(rgb("123456")), flash: None },
    );
    let saved = out.persist.unwrap();
    assert_eq!(saved, state.persist());
    let reborn = restart(Some(saved), vec![]);
    assert_eq!(reborn.scene, state.scene);
    assert_eq!(reborn.canned_id.as_deref(), Some("go"));
    assert!(reborn.last_command.is_none());
}

#[test]
fn padding_never_leaves_a_negative_frame() {
    let mut config = test_config();
    config.display.padding_x = u32::MAX;
    config.display.padding_y = 2000;
    let spec = derive_spec(&scene_text("GO"), t0(), &config, false);
    assert_eq!(spec.text_px, MIN_FONT_PX);
    assert_eq!(spec.clock_text, "18:30:00");
}

#[test]
fn status_tells_what_is_on_screen() {
    let cfg = test_config();
    for scene in [scene_text("GO & <STOP>"), scene_countdown(90, None), scene_countdown(-3600, None)] {
        let shown = derive_spec(&scene, t0(), &cfg, false)
            .text_markup
            .replace("&lt;", "<")
            .replace("&gt;", ">")
            .replace("&amp;", "&");
        assert_eq!(shown, scene.display_string(t0()));
    }
}

#[test]
fn the_clock_stays_across_commands() {
    let mut state = boot();
    let mut clocks = Vec::new();
    for command in [show("X", Flash::Forever), Command::Clear, Command::Colour { bg: None, fg: None }] {
        send(&mut state, command);
        if let Some(spec) = state.push_if_changed(t0(), at(0)) {
            clocks.push(spec.clock_text);
        }
    }
    assert!(!clocks.is_empty() && clocks.iter().all(|c| c == "18:30:00"));
}

#[test]
fn a_rejected_message_leaves_a_flash_running() {
    for flash in [Flash::Forever, Flash::For(flash_default())] {
        let mut state = boot();
        let saved = send(&mut state, show("SHOW STOP", flash)).persist.unwrap();
        let running = state.active_flash;
        assert!(running.is_some());

        let nope = Command::Canned {
            id: "nope".into(),
            bg: None,
            fg: None,
            flash: Some(Flash::Off),
        };
        let out = state.handle(envelope(Ok(nope), ""), t0(), at(100));
        assert_eq!(out.answer, Err(CommandError::UnknownCanned("nope".into())));
        assert!(out.persist.is_none());
        assert_eq!(state.active_flash, running);

        state.handle(envelope(Err(CommandError::InvalidUtf8), "x"), t0(), at(200));
        assert_eq!(state.active_flash, running);
        // What is on disk is still what is on screen.
        assert_eq!(state.persist(), saved);

        // An accepted command ends it.
        send(&mut state, Command::Colour { bg: None, fg: None });
        assert!(state.active_flash.is_none());
    }
}

#[test]
fn a_spec_that_was_not_sent_is_offered_again() {
    let mut state = boot();
    let first = state.push_if_changed(t0(), at(0)).unwrap();
    state.push_failed(None);
    assert_eq!(state.push_if_changed(t0(), at(0)), Some(first.clone()));
    assert_eq!(state.push_if_changed(t0(), at(0)), None);

    send(&mut state, show("NEXT", Flash::Off));
    let second = state.push_if_changed(t0(), at(0)).unwrap();
    assert_ne!(second, first);
    state.push_failed(Some(first));
    assert_eq!(state.push_if_changed(t0(), at(0)), Some(second));
}
