use placard::config::{
    Canned, CannedMessages, Clock, ClockPosition, Config, Defaults, Display, Net, font_desc,
};
use placard::render::{PipelineSettings, pipeline_settings};
use placard::scene::{Flash, Rgb};
use placard::time::TimeZone;

fn canned(text: &str) -> Canned {
    Canned { text: text.into(), bg: None, fg: None, flash: Flash::Off }
}

fn base_config() -> Config {
    let mut messages = CannedMessages::new();
    messages.insert("go".into(), canned("GO"));
    Config {
        display: Display {
            width: 1920,
            height: 1080,
            fps: 50,
            font: "Inter Bold 120".into(),
            padding_x: 96,
            padding_y: 64,
        },
        net: Net { osc_port: 9000, tcp_port: 9001, http_port: 8080 },
        clock: Clock {
            timezone: TimeZone::find("Europe/London").unwrap(),
            font: "Inter Semibold 40".into(),
            position: ClockPosition::BottomRight,
        },
        defaults: Defaults {
            bg: "000000".parse().unwrap(),
            fg: "ffffff".parse().unwrap(),
            boot_scene: "go".into(),
        },
        canned: messages,
    }
}

fn fault(config: &Config) -> String {
    config.validate().unwrap_err().to_string()
}

#[test]
fn boot_scene_must_be_canned() {
    let mut config = base_config();
    config.defaults.boot_scene = "nope".into();
    let err = config.validate().unwrap_err().to_string();
    assert!(err.contains("not a canned message"), "{err}");
}

#[test]
fn validation_rejects_padding_wider_than_the_frame() {
    let mut config = base_config();
    config.display.padding_x = 1000;
    let err = config.validate().unwrap_err().to_string();
    assert!(err.contains("no room"), "{err}");
}

#[test]
fn validation_rejects_silly_dimensions_fps_and_fonts() {
    let mut config = base_config();
    config.display.width = 0;
    assert!(config.validate().is_err());

    let mut config = base_config();
    config.display.fps = 0;
    assert!(config.validate().is_err());

    let mut config = base_config();
    config.display.font = "Inter Bold 4000000000".into();
    assert!(config.validate().is_err());

    base_config().validate().unwrap();
}

#[test]
fn every_fault_has_its_message() {
    let mut config = base_config();
    config.display.width = 63;
    assert_eq!(fault(&config), "display 63x1080 is outside 64x64..7680x4320");
    config.display.width = 7680;
    config.display.height = 4321;
    assert_eq!(fault(&config), "display 7680x4321 is outside 64x64..7680x4320");

    let mut config = base_config();
    config.display.fps = 241;
    assert_eq!(fault(&config), "display.fps 241 is outside 1..240");

    let mut config = base_config();
    config.display.padding_y = 540;
    assert_eq!(fault(&config), "padding 96x540 leaves no room inside 1920x1080");
    config.display.padding_y = u32::MAX;
    assert_eq!(fault(&config), "padding 96x4294967295 leaves no room inside 1920x1080");

    let mut config = base_config();
    config.display.font = "Inter \"Bold\" 4000000000".into();
    assert_eq!(
        fault(&config),
        "display.font size \"Inter \\\"Bold\\\" 4000000000\" maps to 1431655765 px, outside 8..2000"
    );
    config.display.font = "Inter 5".into();
    assert_eq!(fault(&config), "display.font size \"Inter 5\" maps to 6 px, outside 8..2000");

    let mut config = base_config();
    config.defaults.boot_scene = "nope".into();
    assert_eq!(fault(&config), "defaults.boot_scene \"nope\" is not a canned message");
}

#[test]
fn font_size_is_the_trailing_number() {
    let with = |font: &str| Display { font: font.into(), ..base_config().display };
    for (font, family, px) in [
        ("Inter Bold 120", "Inter Bold", 160),
        ("Inter Bold", "Inter Bold", 160),
        ("Inter Bold +90", "Inter Bold", 120),
        ("Inter Bold 12pt", "Inter Bold 12pt", 160),
        ("120", "120", 160),
        ("Inter ", "Inter ", 160),
        ("Inter 4294967296", "Inter 4294967296", 160),
        ("Inter -5", "Inter -5", 160),
        ("Inter 007", "Inter", 9),
        (" 6", "", 8),
    ] {
        let d = with(font);
        assert_eq!(d.font_family(), family, "{font:?}");
        assert_eq!(d.max_font_px(), px, "{font:?}");
    }
}

#[test]
fn canned_messages_are_a_map() {
    let mut messages = CannedMessages::new();
    assert!(messages.get("go").is_none());
    messages.insert("go".into(), canned("GO"));
    messages.insert("stop".into(), canned("STOP"));
    messages.insert("go".into(), canned("GO NOW"));
    assert_eq!(messages.get("go").unwrap().text, "GO NOW");
    assert_eq!(messages.get("stop").unwrap().text, "STOP");
    assert!(messages.contains_key("stop"));
    assert!(!messages.contains_key("Go"));
}

#[test]
fn clock_positions_map_to_alignments() {
    assert_eq!(ClockPosition::TopLeft.alignment(), ("left", "top"));
    assert_eq!(ClockPosition::TopRight.alignment(), ("right", "top"));
    assert_eq!(ClockPosition::BottomLeft.alignment(), ("left", "bottom"));
    assert_eq!(ClockPosition::BottomRight.alignment(), ("right", "bottom"));
}

#[test]
fn font_descriptions_are_in_pixels() {
    let d = base_config().display;
    assert_eq!(font_desc(d.font_family(), d.max_font_px()), "Inter Bold 160px");
    assert_eq!(base_config().defaults.bg, Rgb::black());
}

#[test]
fn pipeline_settings_follow_the_configuration() {
    let settings = PipelineSettings {
        width: 1920,
        height: 1080,
        fps: 50,
        live: true,
        bg_argb: 0xff000000,
        canvas_argb: 0,
        text_font: "Inter Bold 160px".into(),
        text_xpad: 96,
        text_ypad: 64,
        clock_font: "Inter Semibold 40".into(),
        clock_halign: "right",
        clock_valign: "bottom",
        clock_xpad: 48,
        clock_ypad: 32,
    };
    assert_eq!(pipeline_settings(&base_config(), false), settings);
    assert_eq!(pipeline_settings(&base_config(), true), PipelineSettings { live: false, ..settings });
}
