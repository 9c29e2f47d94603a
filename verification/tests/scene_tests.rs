use std::fmt;

use placard::scene::{
    Content, Flash, FlashField, FlashTable, Rgb, Scene, flash_default, format_clock,
    format_countdown,
};
use placard::seconds::Seconds;
use placard::time::{Duration, TimeZone, Timestamp, parse_iso};
use serde::Deserialize as _;
use serde::de::Error as _;

fn t0() -> Timestamp {
    parse_iso("2026-09-08T18:30:00Z").unwrap()
}

/// `t0` moved by `ms` milliseconds.
fn t0_plus_ms(ms: i64) -> Timestamp {
    let total = t0().unix_secs() * 1000 + ms;
    let secs = total.div_euclid(1000);
    let nanos = total.rem_euclid(1000) as u32 * 1_000_000;
    Timestamp::new(secs, nanos).unwrap()
}

fn fmt_at(delta_secs: i64) -> String {
    format_countdown(t0_plus_ms(delta_secs * 1000), t0())
}

fn fmt_at_ms(delta_ms: i64) -> String {
    format_countdown(t0_plus_ms(delta_ms), t0())
}

fn seconds(v: f64) -> Seconds {
    Seconds { bits: v.to_bits(), text: v.to_string() }
}

fn zone(name: &str) -> TimeZone {
    TimeZone::find(name).unwrap()
}

#[test]
fn rgb_parses_bare_hex_and_tolerates_hash() {
    assert_eq!("8a0000".parse::<Rgb>().unwrap(), Rgb { r: 0x8a, g: 0, b: 0 });
    assert_eq!("#8a0000".parse::<Rgb>().unwrap(), Rgb { r: 0x8a, g: 0, b: 0 });
    assert_eq!("FFffFF".parse::<Rgb>().unwrap(), Rgb { r: 255, g: 255, b: 255 });
}

#[test]
fn rgb_rejects_bad_forms() {
    for bad in ["8a000", "8a00000", "#8a000", "8g0000", "", "#", "red"] {
        assert!(bad.parse::<Rgb>().is_err(), "{bad:?} should fail");
    }
}

#[test]
fn rgb_argb_packing() {
    let c = Rgb { r: 0x8a, g: 0x12, b: 0x34 };
    assert_eq!(c.to_argb(0xff), 0xff8a1234);
    assert_eq!(c.to_argb(0x00), 0x008a1234);
}

#[test]
fn rgb_display_roundtrip() {
    assert_eq!("8a0000".parse::<Rgb>().unwrap().to_string(), "8a0000");
    assert_eq!("#8a0000".parse::<Rgb>().unwrap().to_string(), "8a0000");
}

#[test]
fn rgb_shown_form_is_lowercase_and_reads_back() {
    for c in [Rgb { r: 0, g: 0x0f, b: 0xf0 }, Rgb { r: 0xab, g: 0xcd, b: 0xef }, Rgb::black()] {
        let shown = c.to_string();
        assert_eq!(shown, format!("{:02x}{:02x}{:02x}", c.r, c.g, c.b));
        assert_eq!(Rgb::parse(&shown), Ok(c));
    }
}

#[test]
fn rgb_errors_quote_the_input() {
    assert_eq!(Rgb::parse("re\"d"), Err("bad colour \"re\\\"d\": expected rrggbb".to_string()));
    // Six bytes of hex, not six characters of anything.
    assert!(Rgb::parse("é0000").is_err());
    assert!(Rgb::parse("##8a000").is_err());
}

#[test]
fn countdown_under_an_hour() {
    assert_eq!(fmt_at(5), "0:05");
    assert_eq!(fmt_at(59), "0:59");
    assert_eq!(fmt_at(60), "1:00");
    assert_eq!(fmt_at(3599), "59:59");
}

#[test]
fn countdown_hour_and_up() {
    assert_eq!(fmt_at(3600), "1:00:00");
    assert_eq!(fmt_at(3735), "1:02:15");
    assert_eq!(fmt_at(36_000), "10:00:00");
}

#[test]
fn countdown_zero_crossing_and_negative() {
    assert_eq!(fmt_at(0), "0:00");
    assert_eq!(fmt_at(-1), "-0:01");
    assert_eq!(fmt_at(-7), "-0:07");
    assert_eq!(fmt_at(-3600), "-1:00:00");
    assert_eq!(fmt_at(-3735), "-1:02:15");
}

#[test]
fn countdown_displays_the_ceiling_of_remaining_time() {
    // A freshly cued 5-second countdown must actually show 0:05.
    assert_eq!(fmt_at_ms(5_000), "0:05");
    assert_eq!(fmt_at_ms(4_999), "0:05");
    assert_eq!(fmt_at_ms(4_000), "0:04");
    assert_eq!(fmt_at_ms(1), "0:01");
    // 0:00 spans exactly [0, -1s): one second, like every other value.
    assert_eq!(fmt_at_ms(0), "0:00");
    assert_eq!(fmt_at_ms(-999), "0:00");
    assert_eq!(fmt_at_ms(-1_000), "-0:01");
    assert_eq!(fmt_at_ms(-1_001), "-0:01");
    assert_eq!(fmt_at_ms(-2_000), "-0:02");
}

#[test]
fn clock_formats_in_timezone() {
    let now = parse_iso("2026-01-15T12:00:00Z").unwrap();
    assert_eq!(format_clock(now, &zone("Europe/London")), "12:00:00");
    // BST: UTC+1 in summer.
    let summer = parse_iso("2026-07-15T12:00:00Z").unwrap();
    assert_eq!(format_clock(summer, &zone("Europe/London")), "13:00:00");
}

#[test]
fn clock_across_dst_change() {
    // Europe/London: clocks go forward 2026-03-29 01:00 UTC -> 02:00 BST.
    let before = parse_iso("2026-03-29T00:59:59Z").unwrap();
    let after = parse_iso("2026-03-29T01:00:00Z").unwrap();
    assert_eq!(format_clock(before, &zone("Europe/London")), "00:59:59");
    assert_eq!(format_clock(after, &zone("Europe/London")), "02:00:00");
}

/// A flash as a deserialiser meets it: a boolean, a number or a table.
struct FlashIn(Flash);

struct FlashInVisitor;

impl<'de> serde::Deserialize<'de> for FlashIn {
    fn deserialize<D: serde::Deserializer<'de>>(de: D) -> Result<Self, D::Error> {
        de.deserialize_any(FlashInVisitor)
    }
}

impl<'de> serde::de::Visitor<'de> for FlashInVisitor {
    type Value = FlashIn;

    fn expecting(&self, f: &mut fmt::Formatter<'_>) -> fmt::Result {
        f.write_str("a flash")
    }

    fn visit_bool<E: serde::de::Error>(self, v: bool) -> Result<FlashIn, E> {
        Ok(FlashIn(Flash::from_bool(v)))
    }

    fn visit_i64<E: serde::de::Error>(self, v: i64) -> Result<FlashIn, E> {
        self.visit_f64(v as f64)
    }

    fn visit_u64<E: serde::de::Error>(self, v: u64) -> Result<FlashIn, E> {
        self.visit_f64(v as f64)
    }

    fn visit_f64<E: serde::de::Error>(self, v: f64) -> Result<FlashIn, E> {
        Flash::from_secs(&seconds(v)).map(FlashIn).map_err(E::custom)
    }

    fn visit_map<A: serde::de::MapAccess<'de>>(self, mut map: A) -> Result<FlashIn, A::Error> {
        let mut table = FlashTable::new();
        while let Some(key) = map.next_key::<String>()? {
            let field = match key.as_str() {
                "duration_s" => FlashField::DurationS(seconds(map.next_value::<Number>()?.0)),
                "infinite" => FlashField::Infinite(map.next_value::<bool>()?),
                other => FlashField::Unknown(other.to_string()),
            };
            table.field(&field).map_err(A::Error::custom)?;
        }
        table.finish().map(FlashIn).map_err(A::Error::custom)
    }
}

/// A number of seconds written as either an integer or a float.
struct Number(f64);

struct NumberVisitor;

impl<'de> serde::Deserialize<'de> for Number {
    fn deserialize<D: serde::Deserializer<'de>>(de: D) -> Result<Self, D::Error> {
        de.deserialize_any(NumberVisitor)
    }
}

impl serde::de::Visitor<'_> for NumberVisitor {
    type Value = Number;

    fn expecting(&self, f: &mut fmt::Formatter<'_>) -> fmt::Result {
        f.write_str("a number of seconds")
    }

    fn visit_i64<E: serde::de::Error>(self, v: i64) -> Result<Number, E> {
        Ok(Number(v as f64))
    }

    fn visit_u64<E: serde::de::Error>(self, v: u64) -> Result<Number, E> {
        Ok(Number(v as f64))
    }

    fn visit_f64<E: serde::de::Error>(self, v: f64) -> Result<Number, E> {
        Ok(Number(v))
    }
}

fn flash_json(src: &str) -> Result<Flash, String> {
    serde_json::from_str::<FlashIn>(src).map(|f| f.0).map_err(|e| e.to_string())
}

fn flash_toml(src: &str) -> Result<Flash, String> {
    let table = toml::from_str::<toml::Table>(&format!("flash = {src}")).map_err(|e| e.to_string())?;
    FlashIn::deserialize(table["flash"].clone()).map(|f| f.0).map_err(|e| e.to_string())
}

#[test]
fn flash_accepts_bools_numbers_and_tables() {
    for parse in [flash_json, flash_toml] {
        assert_eq!(parse("true").unwrap(), Flash::For(flash_default()));
        assert_eq!(parse("false").unwrap(), Flash::Off);
        assert_eq!(parse("0").unwrap(), Flash::Off);
        assert_eq!(parse("10").unwrap(), Flash::For(Duration::from_secs(10)));
        assert_eq!(parse("0.5").unwrap(), Flash::For(Duration::from_millis(500)));
        assert_eq!(parse("-1").unwrap(), Flash::Forever);
    }
    // Tables: JSON objects and TOML inline tables.
    assert_eq!(
        flash_json(r#"{"duration_s": 10}"#).unwrap(),
        Flash::For(Duration::from_secs(10))
    );
    assert_eq!(
        flash_toml("{ duration_s = 10 }").unwrap(),
        Flash::For(Duration::from_secs(10))
    );
    assert_eq!(flash_json(r#"{"infinite": true}"#).unwrap(), Flash::Forever);
    assert_eq!(flash_toml("{ infinite = true }").unwrap(), Flash::Forever);
}

#[test]
fn flash_rejects_ambiguity_with_a_useful_message() {
    // Contradictions and half-answers, not silently resolved.
    let err = flash_json(r#"{"duration_s": 10, "infinite": true}"#).unwrap_err();
    assert!(err.contains("not both"), "{err}");

    let err = flash_json(r#"{"infinite": false}"#).unwrap_err();
    assert!(err.contains("ambiguous"), "{err}");

    let err = flash_json("{}").unwrap_err();
    assert!(err.contains("needs duration_s or infinite"), "{err}");

    let err = flash_json(r#"{"duraton_s": 10}"#).unwrap_err();
    assert!(err.contains("unknown flash field"), "{err}");

    // Over the cap: say infinite and mean it.
    let err = flash_json("999999999").unwrap_err();
    assert!(err.contains("maximum"), "{err}");

    // Nothing here may panic.
    assert!(flash_json(r#""nope""#).is_err());
    assert!(flash_json("[1]").is_err());
}

#[test]
fn flash_seconds_have_exact_messages_and_bounds() {
    assert_eq!(
        Flash::from_secs(&seconds(f64::NAN)),
        Err("flash duration is not a number".to_string())
    );
    assert_eq!(
        Flash::from_secs(&seconds(86_400.5)),
        Err("flash duration 86400.5s is over the 86400s maximum; use infinite for a flash with \
             no end"
            .to_string())
    );
    assert_eq!(
        Flash::from_secs(&seconds(f64::INFINITY)),
        Err("flash duration infs is over the 86400s maximum; use infinite for a flash with no end"
            .to_string())
    );
    assert_eq!(Flash::from_secs(&seconds(86_400.0)), Ok(Flash::For(Duration::from_secs(86_400))));
    assert_eq!(Flash::from_secs(&seconds(-0.0)), Ok(Flash::Off));
    assert_eq!(Flash::from_secs(&seconds(f64::NEG_INFINITY)), Ok(Flash::Forever));
    assert_eq!(Flash::default(), Flash::Off);
}

#[test]
fn flash_durations_round_as_the_standard_library_does() {
    let samples = [
        1.0, 0.1, 0.3, 2.5e-9, 1.5e-9, 0.5e-9, 0.5000000001e-9, 1e-10, 5e-324, 1e-300, 3.999_999_999_5,
        0.000_000_000_5, 12_345.678_901_234_567, 86_399.999_999_999_99, 1.0 / 3.0, 2.0 / 3.0, 7e-9,
        0.999_999_999_9, 43_200.000_000_000_5, 59.999_999_999_499_99,
    ];
    for v in samples {
        let want = std::time::Duration::from_secs_f64(v).as_nanos();
        match Flash::from_secs(&seconds(v)) {
            Ok(Flash::For(d)) => assert_eq!(d.nanos, want, "{v}"),
            other => panic!("{v}: {other:?}"),
        }
    }
}

#[test]
fn cleared_scene_is_black_and_empty() {
    let fg = Rgb { r: 1, g: 2, b: 3 };
    let s = Scene::cleared(fg);
    assert_eq!(s.bg, Rgb::black());
    assert_eq!(s.fg, fg);
    assert_eq!(s.content, Content::Text { text: String::new() });
    assert_eq!(s.display_string(t0()), "");
}

#[test]
fn display_string_is_the_text_or_the_countdown() {
    let text = Scene {
        bg: Rgb::black(),
        fg: Rgb::black(),
        content: Content::Text { text: "GO".into() },
    };
    assert_eq!(text.display_string(t0()), "GO");
    let countdown = Scene {
        bg: Rgb::black(),
        fg: Rgb::black(),
        content: Content::Countdown { target: t0(), label: Some("House opens in".into()) },
    };
    assert_eq!(countdown.display_string(t0_plus_ms(42_000)), "-0:42");
}

#[test]
fn packing_keeps_colours_apart() {
    let samples = [
        (Rgb { r: 0, g: 0, b: 1 }, 0u8),
        (Rgb { r: 0, g: 1, b: 0 }, 0),
        (Rgb { r: 1, g: 0, b: 0 }, 0),
        (Rgb { r: 0, g: 0, b: 0 }, 1),
        (Rgb { r: 255, g: 255, b: 255 }, 255),
    ];
    for (i, (a, x)) in samples.iter().enumerate() {
        for (j, (b, y)) in samples.iter().enumerate() {
            assert_eq!(a.to_argb(*x) == b.to_argb(*y), i == j);
        }
    }
}

#[test]
fn countdown_values_all_look_different_and_last_a_second() {
    let mut seen = std::collections::HashSet::new();
    for secs in -7300..7300 {
        let shown = fmt_at(secs);
        assert_eq!(shown, fmt_at_ms(secs * 1000 - 999));
        assert_eq!(shown.starts_with('-'), secs < 0);
        assert!(seen.insert(shown));
    }
}

#[test]
fn countdowns_reach_as_far_as_time_does() {
    let first = Timestamp::new(placard::time::MIN_SECS, 0).unwrap();
    let last = Timestamp::new(placard::time::MAX_SECS, 999_999_999).unwrap();
    assert_eq!(format_countdown(last, first), "4595796696:00:00");
    assert_eq!(format_countdown(first, last), "-4595796695:59:59");
}
