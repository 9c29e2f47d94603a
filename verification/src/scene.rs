//! What is on screen: colours, flashes, content, and the strings they show as.

use std::str::FromStr;

use vstd::prelude::*;

use crate::seconds;
use crate::seconds::{Seconds, SecondsView};
use crate::text;
use crate::time;
use crate::time::{Duration, TimeZone, Timestamp};

verus! {

/// A colour on the wire: `rrggbb`, case-insensitive, with a leading `#`
/// tolerated. No short form, no alpha. Shown without the `#`, which needs
/// quoting in shells and comments in QLab OSC cues.
#[derive(Debug, Clone, Copy, PartialEq, Eq, Structural)]
pub struct Rgb {
    pub r: u8,
    pub g: u8,
    pub b: u8,
}

/// Whether `c` is a hexadecimal digit of either case.
pub open spec fn is_hex(c: char) -> bool {
    ||| '0' <= c <= '9'
    ||| 'a' <= c <= 'f'
    ||| 'A' <= c <= 'F'
}

/// The value of a hexadecimal digit.
pub open spec fn hex_value(c: char) -> int {
    if '0' <= c <= '9' {
        c as int - 48
    } else if 'a' <= c <= 'f' {
        c as int - 87
    } else {
        c as int - 55
    }
}

/// The lower-case hexadecimal digit for `d`.
pub open spec fn hex_digit(d: int) -> char {
    if d < 10 {
        (d + 48) as char
    } else {
        (d + 87) as char
    }
}

/// A byte as two lower-case hexadecimal digits.
pub open spec fn hex_byte(b: u8) -> Seq<char> {
    seq![hex_digit(b as int / 16), hex_digit(b as int % 16)]
}

/// `s` without one leading `#`.
pub open spec fn without_hash(s: Seq<char>) -> Seq<char> {
    if s.len() > 0 && s[0] == '#' {
        s.skip(1)
    } else {
        s
    }
}

/// Whether `s` spells a colour: six hexadecimal digits, a `#` allowed in front.
pub open spec fn spells_colour(s: Seq<char>) -> bool {
    let h = without_hash(s);
    h.len() == 6 && forall|i: int| 0 <= i < 6 ==> is_hex(#[trigger] h[i])
}

/// The colour that `s` spells.
pub open spec fn colour_in(s: Seq<char>) -> Rgb {
    let h = without_hash(s);
    Rgb {
        r: (hex_value(h[0]) * 16 + hex_value(h[1])) as u8,
        g: (hex_value(h[2]) * 16 + hex_value(h[3])) as u8,
        b: (hex_value(h[4]) * 16 + hex_value(h[5])) as u8,
    }
}

/// What is said of a text that spells no colour.
pub open spec fn bad_colour(s: Seq<char>) -> Seq<char> {
    "bad colour "@ + text::debug_quoted(s) + ": expected rrggbb"@
}

proof fn lemma_hex_pair(a: char, b: char)
    requires
        is_hex(a),
        is_hex(b),
    ensures
        ({
            let shown = hex_byte((hex_value(a) * 16 + hex_value(b)) as u8);
            &&& hex_value(shown[0]) == hex_value(a)
            &&& hex_value(shown[1]) == hex_value(b)
            &&& !('A' <= shown[0] <= 'F')
            &&& !('A' <= shown[1] <= 'F')
        }),
{
    let v = hex_value(a) * 16 + hex_value(b);
    assert(0 <= hex_value(a) < 16 && 0 <= hex_value(b) < 16);
    assert(v / 16 == hex_value(a) && v % 16 == hex_value(b));
}

fn read_hex(c: char) -> (r: Option<u8>)
    ensures
        r is Some <==> is_hex(c),
        r matches Some(d) ==> d == hex_value(c) && d < 16,
{
    if '0' <= c && c <= '9' {
        Some((c as u32 - 48) as u8)
    } else if 'a' <= c && c <= 'f' {
        Some((c as u32 - 87) as u8)
    } else if 'A' <= c && c <= 'F' {
        Some((c as u32 - 55) as u8)
    } else {
        None
    }
}

pub(crate) fn show_hex(d: u8) -> (c: char)
    requires
        d < 16,
    ensures
        c == hex_digit(d as int),
{
    if d < 10 {
        (d + 48) as char
    } else {
        (d + 87) as char
    }
}

impl Rgb {
    pub fn black() -> (c: Rgb)
        ensures
            c == (Rgb { r: 0, g: 0, b: 0 }),
    {
        Rgb { r: 0, g: 0, b: 0 }
    }

    /// `0xAARRGGBB`.
    pub open spec fn packed(self, alpha: u8) -> int {
        alpha * 0x100_0000 + self.r * 0x1_0000 + self.g * 0x100 + self.b
    }

    /// Pack as `0xAARRGGBB`, the layout both `videotestsrc.foreground-color`
    /// and `textoverlay.color` use.
    pub fn to_argb(self, alpha: u8) -> (argb: u32)
        ensures
            argb == self.packed(alpha),
    {
        alpha as u32 * 0x100_0000 + self.r as u32 * 0x1_0000 + self.g as u32 * 0x100 + self.b as u32
    }

    /// The colour that `s` spells.
    pub fn parse(s: &str) -> (r: Result<Rgb, String>)
        ensures
            r is Ok <==> spells_colour(s@),
            r matches Ok(c) ==> c == colour_in(s@),
            r matches Err(e) ==> e@ == bad_colour(s@),
    {
        match Rgb::read(s) {
            Some(c) => Ok(c),
            None => {
                let mut e = "bad colour ".to_owned();
                let quoted = text::quote_debug(s);
                e.append(quoted.as_str());
                e.append(": expected rrggbb");
                Err(e)
            },
        }
    }

    fn read(s: &str) -> (r: Option<Rgb>)
        ensures
            r is Some <==> spells_colour(s@),
            r matches Some(c) ==> c == colour_in(s@),
    {
        let v = text::chars_of(s);
        let start: usize = if v.len() > 0 && v[0] == '#' {
            1
        } else {
            0
        };
        let ghost h = without_hash(s@);
        assert(h =~= s@.skip(start as int));
        if v.len() - start != 6 {
            return None;
        }
        let mut d: Vec<u8> = Vec::new();
        for i in 0..6usize
            invariant
                v@ == s@,
                start <= 1,
                v.len() - start == 6,
                h == s@.skip(start as int),
                h == without_hash(s@),
                d.len() == i,
                forall|j: int| 0 <= j < i ==> is_hex(#[trigger] h[j]),
                forall|j: int| 0 <= j < i ==> #[trigger] d[j] == hex_value(h[j]) && d[j] < 16,
        {
            assert(v[start + i] == h[i as int]);
            match read_hex(v[start + i]) {
                Some(x) => d.push(x),
                None => {
                    return None;
                },
            }
        }
        Some(Rgb { r: d[0] * 16 + d[1], g: d[2] * 16 + d[3], b: d[4] * 16 + d[5] })
    }

    /// The colour as `rrggbb`.
    pub open spec fn shown(self) -> Seq<char> {
        hex_byte(self.r) + hex_byte(self.g) + hex_byte(self.b)
    }

    /// The colour as `rrggbb`, lower case, without a `#`.
    pub fn to_string(&self) -> (s: String)
        ensures
            s@ == self.shown(),
    {
        let mut s = String::new();
        s.push(show_hex(self.r / 16));
        s.push(show_hex(self.r % 16));
        s.push(show_hex(self.g / 16));
        s.push(show_hex(self.g % 16));
        s.push(show_hex(self.b / 16));
        s.push(show_hex(self.b % 16));
        assert(s@ =~= self.shown());
        s
    }

    /// Reading a colour back from what is shown of it gives the same colour, a
    /// `#` in front or not.
    pub proof fn law_shown_colour_reads_back(self)
        ensures
            spells_colour(self.shown()),
            colour_in(self.shown()) == self,
            spells_colour(seq!['#'] + self.shown()),
            colour_in(seq!['#'] + self.shown()) == self,
    {
        let s = self.shown();
        assert(without_hash(s) =~= s);
        assert((seq!['#'] + s).skip(1) =~= s);
    }

    /// A text's case and its `#` do not survive being read: what is shown of the
    /// colour it spells is the text itself, without `#`, in lower case.
    pub proof fn law_shown_form_is_canonical(s: Seq<char>)
        requires
            spells_colour(s),
        ensures
            colour_in(s).shown().len() == 6,
            forall|i: int|
                0 <= i < 6 ==> {
                    &&& hex_value(#[trigger] colour_in(s).shown()[i]) == hex_value(without_hash(s)[i])
                    &&& !('A' <= colour_in(s).shown()[i] <= 'F')
                },
    {
        let h = without_hash(s);
        lemma_hex_pair(h[0], h[1]);
        lemma_hex_pair(h[2], h[3]);
        lemma_hex_pair(h[4], h[5]);
        let c = colour_in(s);
        assert(c.shown()[0] == hex_byte(c.r)[0] && c.shown()[1] == hex_byte(c.r)[1]);
        assert(c.shown()[2] == hex_byte(c.g)[0] && c.shown()[3] == hex_byte(c.g)[1]);
        assert(c.shown()[4] == hex_byte(c.b)[0] && c.shown()[5] == hex_byte(c.b)[1]);
    }

    /// Different colours, and different alphas, never pack to the same number.
    pub proof fn law_packing_loses_nothing(self, alpha: u8, other: Rgb, other_alpha: u8)
        requires
            self.packed(alpha) == other.packed(other_alpha),
        ensures
            self == other,
            alpha == other_alpha,
    {
    }
}

impl FromStr for Rgb {
    type Err = String;

    fn from_str(s: &str) -> (r: Result<Rgb, String>)
        ensures
            r is Ok <==> spells_colour(s@),
            r matches Ok(c) ==> c == colour_in(s@),
            r matches Err(e) ==> e@ == bad_colour(s@),
    {
        Rgb::parse(s)
    }
}

/// How a message flashes when it lands: not at all, for a fixed time, or
/// until the next command replaces it.
///
/// On the wire (JSON body and TOML config alike) this accepts, in order of
/// how often it's wanted:
///
/// | Value | Meaning |
/// |---|---|
/// | `true` | flash for the default 3 s |
/// | `false` | don't flash |
/// | `10` | flash for 10 seconds |
/// | `{ duration_s = 10 }` | the same, spelled out |
/// | `{ infinite = true }` | flash until the next command |
/// | `-1` | the same, in scalar form (OSC has no tables) |
#[derive(Debug, Clone, Copy, PartialEq, Eq, Structural)]
pub enum Flash {
    Off,
    For(Duration),
    /// Until another command replaces the scene. Unlike a timed flash this
    /// is part of the state, not a transient effect, so it survives a
    /// restart: an alarm that quietly stops alarming would be worse than
    /// one that keeps going.
    Forever,
}

/// What a bare `true` means, in seconds.
pub const FLASH_DEFAULT_SECS: u64 = 3;

/// What a bare `true` means.
pub open spec fn default_flash() -> Duration {
    Duration { nanos: 3_000_000_000 }
}

/// What a bare `true` means.
pub fn flash_default() -> (d: Duration)
    ensures
        d == default_flash(),
{
    Duration::from_secs(FLASH_DEFAULT_SECS)
}

/// The flash that a number of seconds asks for, or what is wrong with it: zero
/// is off, negative is forever, and what is no number or too large is refused.
pub open spec fn seconds_flash(s: SecondsView) -> Result<Flash, Seq<char>> {
    if seconds::is_nan(s.bits) {
        Err("flash duration is not a number"@)
    } else if seconds::is_zero(s.bits) {
        Ok(Flash::Off)
    } else if seconds::is_signed(s.bits) {
        Ok(Flash::Forever)
    } else if seconds::exceeds(s.bits, seconds::MAX_FLASH_SECS as nat) {
        Err(
            "flash duration "@ + s.text
                + "s is over the 86400s maximum; use infinite for a flash with no end"@,
        )
    } else {
        Ok(Flash::For(Duration { nanos: seconds::nanos_in(s.bits) as u128 }))
    }
}

/// The flash that a plain yes or no asks for.
pub open spec fn switched(on: bool) -> Flash {
    if on {
        Flash::For(default_flash())
    } else {
        Flash::Off
    }
}

impl Flash {
    /// Seconds to `Flash`, the mapping shared by every transport: zero is
    /// off, negative is forever, and anything unrepresentable is an error.
    pub fn from_secs(secs: &Seconds) -> (r: Result<Flash, String>)
        ensures
            text::said(r) == seconds_flash(secs@),
    {
        if secs.is_nan() {
            return Err("flash duration is not a number".to_owned());
        }
        if secs.is_zero() {
            return Ok(Flash::Off);
        }
        if secs.is_signed() {
            return Ok(Flash::Forever);
        }
        if secs.over_limit() {
            let mut e = "flash duration ".to_owned();
            e.append(secs.text.as_str());
            e.append("s is over the 86400s maximum; use infinite for a flash with no end");
            return Err(e);
        }
        Ok(Flash::For(Duration { nanos: secs.to_nanos() }))
    }

    /// A plain yes or no.
    pub fn from_bool(on: bool) -> (f: Flash)
        ensures
            f == switched(on),
    {
        if on {
            Flash::For(flash_default())
        } else {
            Flash::Off
        }
    }
}

impl Default for Flash {
    fn default() -> (f: Flash)
        ensures
            f == Flash::Off,
    {
        Flash::Off
    }
}

/// One entry of a flash table.
#[derive(Debug, PartialEq, Eq)]
pub enum FlashField {
    DurationS(Seconds),
    Infinite(bool),
    /// Any other key.
    Unknown(String),
}

/// What one entry of a flash table asks for, or what is wrong with it.
pub open spec fn field_flash(f: FlashField) -> Result<Flash, Seq<char>> {
    match f {
        FlashField::DurationS(s) => seconds_flash(s@),
        FlashField::Infinite(true) => Ok(Flash::Forever),
        FlashField::Infinite(false) => Err(
            "flash infinite = false is ambiguous; use flash = false to turn flashing off, or give duration_s"@,
        ),
        FlashField::Unknown(key) => Err(
            "unknown flash field "@ + text::debug_quoted(key@)
                + ", expected duration_s or infinite"@,
        ),
    }
}

/// A flash table after one more entry, or what is wrong with it.
pub open spec fn table_with(t: Option<Flash>, f: FlashField) -> Result<Option<Flash>, Seq<char>> {
    match field_flash(f) {
        Err(e) => Err(e),
        Ok(v) => if t is Some {
            Err("flash takes duration_s or infinite, not both"@)
        } else {
            Ok(Some(v))
        },
    }
}

/// What a whole flash table asks for.
pub open spec fn table_flash(t: Option<Flash>) -> Result<Flash, Seq<char>> {
    match t {
        Some(f) => Ok(f),
        None => Err("flash table needs duration_s or infinite"@),
    }
}

/// A flash table while its entries come in. Exactly one recognised key;
/// contradictions (`duration_s` and `infinite`) and `infinite: false` are
/// rejected with a message that says what to write instead, rather than being
/// silently resolved.
#[derive(Debug, Clone, Copy, PartialEq, Eq, Structural)]
pub struct FlashTable {
    pub flash: Option<Flash>,
}

impl FlashTable {
    pub fn new() -> (t: FlashTable)
        ensures
            t.flash is None,
    {
        FlashTable { flash: None }
    }

    fn asked(field: &FlashField) -> (r: Result<Flash, String>)
        ensures
            text::said(r) == field_flash(*field),
    {
        match field {
            FlashField::DurationS(secs) => Flash::from_secs(secs),
            FlashField::Infinite(on) => if *on {
                Ok(Flash::Forever)
            } else {
                Err(
                    "flash infinite = false is ambiguous; use flash = false to turn flashing off, or give duration_s".to_owned(),
                )
            },
            FlashField::Unknown(key) => {
                let mut e = "unknown flash field ".to_owned();
                let quoted = text::quote_debug(key.as_str());
                e.append(quoted.as_str());
                e.append(", expected duration_s or infinite");
                Err(e)
            },
        }
    }

    /// Take one more entry.
    pub fn field(&mut self, field: &FlashField) -> (r: Result<(), String>)
        ensures
            match table_with(old(self).flash, *field) {
                Ok(t) => r is Ok && final(self).flash == t,
                Err(e) => r matches Err(msg) && msg@ == e && *final(self) == *old(self),
            },
    {
        let value = FlashTable::asked(field)?;
        match self.flash {
            Some(_) => Err("flash takes duration_s or infinite, not both".to_owned()),
            None => {
                self.flash = Some(value);
                Ok(())
            },
        }
    }

    /// The table is complete.
    pub fn finish(&self) -> (r: Result<Flash, String>)
        ensures
            text::said(r) == table_flash(self.flash),
    {
        match self.flash {
            Some(f) => Ok(f),
            None => Err("flash table needs duration_s or infinite".to_owned()),
        }
    }
}

/// A table of one good entry asks for what the entry asks for; a second entry,
/// whatever it is, spoils it; and an empty table asks for nothing.
pub proof fn law_flash_table_takes_one_entry(a: FlashField, b: FlashField)
    ensures
        table_flash(None) is Err,
        match field_flash(a) {
            Ok(f) => {
                &&& table_with(None, a) == Ok::<Option<Flash>, Seq<char>>(Some(f))
                &&& table_flash(Some(f)) == Ok::<Flash, Seq<char>>(f)
                &&& table_with(Some(f), b) is Err
            },
            Err(e) => table_with(None, a) == Err::<Option<Flash>, Seq<char>>(e),
        },
{
}

/// What is on screen besides the colours.
#[derive(Debug, PartialEq, Eq)]
pub enum Content {
    Text { text: String },
    Countdown { target: Timestamp, label: Option<String> },
}

/// Content by its texts.
pub enum ContentView {
    Text { text: Seq<char> },
    Countdown { target: Timestamp, label: Option<Seq<char>> },
}

impl View for Content {
    type V = ContentView;

    open spec fn view(&self) -> ContentView {
        match *self {
            Content::Text { text } => ContentView::Text { text: text@ },
            Content::Countdown { target, label } => ContentView::Countdown {
                target,
                label: text::opt_text(label),
            },
        }
    }
}

impl Clone for Content {
    fn clone(&self) -> (r: Content)
        ensures
            r == *self,
    {
        match self {
            Content::Text { text } => Content::Text { text: text.clone() },
            Content::Countdown { target, label } => Content::Countdown {
                target: *target,
                label: text::clone_opt(label),
            },
        }
    }
}

#[derive(Debug, PartialEq, Eq)]
pub struct Scene {
    pub bg: Rgb,
    pub fg: Rgb,
    pub content: Content,
}

/// A scene by its texts.
pub struct SceneView {
    pub bg: Rgb,
    pub fg: Rgb,
    pub content: ContentView,
}

impl View for Scene {
    type V = SceneView;

    open spec fn view(&self) -> SceneView {
        SceneView { bg: self.bg, fg: self.fg, content: self.content@ }
    }
}

impl Clone for Scene {
    fn clone(&self) -> (r: Scene)
        ensures
            r == *self,
    {
        Scene { bg: self.bg, fg: self.fg, content: self.content.clone() }
    }
}

/// The `clear` scene: black background, no text.
pub open spec fn cleared_scene(fg: Rgb) -> SceneView {
    SceneView {
        bg: Rgb { r: 0, g: 0, b: 0 },
        fg,
        content: ContentView::Text { text: Seq::<char>::empty() },
    }
}

/// The string displayed for a scene's content.
pub open spec fn displayed(content: ContentView, now: Timestamp) -> Seq<char> {
    match content {
        ContentView::Text { text } => text,
        ContentView::Countdown { target, .. } => countdown_text(secs_shown(target, now)),
    }
}

impl Scene {
    /// The `clear` scene: black background, no text. Colours reset so a later
    /// `show` without colours comes up white-on-black, not whatever preceded it.
    pub fn cleared(fg: Rgb) -> (s: Scene)
        ensures
            s@ == cleared_scene(fg),
    {
        Scene { bg: Rgb::black(), fg, content: Content::Text { text: String::new() } }
    }

    /// The string currently displayed for this scene's content.
    pub fn display_string(&self, now: Timestamp) -> (r: String)
        ensures
            r@ == displayed(self@.content, now),
    {
        match &self.content {
            Content::Text { text } => text.clone(),
            Content::Countdown { target, .. } => format_countdown(*target, now),
        }
    }
}

/// A span in nanoseconds as whole seconds, rounded up.
pub open spec fn ceil_secs(nanos: int) -> int {
    -((-nanos) / 1_000_000_000)
}

/// The whole seconds a countdown shows: what remains, rounded up.
pub open spec fn secs_shown(target: Timestamp, now: Timestamp) -> int {
    ceil_secs(time::nanos_between(target, now))
}

/// `secs` as `M:SS` under an hour and `H:MM:SS` from there on, with a minus when
/// negative.
pub open spec fn countdown_text(secs: int) -> Seq<char> {
    if secs < 0 {
        seq!['-'] + span_text(-secs)
    } else {
        span_text(secs)
    }
}

/// `s` as `M:SS` under an hour and `H:MM:SS` from there on.
pub open spec fn span_text(s: int) -> Seq<char> {
    if s < 3600 {
        text::decimal((s / 60) as nat) + seq![':'] + text::two_digits(s % 60)
    } else {
        text::decimal((s / 3600) as nat) + seq![':'] + text::two_digits(s % 3600 / 60) + seq![':']
            + text::two_digits(s % 60)
    }
}

/// Countdown display: `M:SS` under an hour, `H:MM:SS` otherwise. Past the
/// target it continues with a leading minus (`-0:07`, `-1:02:15`) indefinitely.
///
/// The value shown is the *ceiling* of the remaining time, so each digit
/// change lands exactly on its second boundary: a 5-second countdown shows
/// `0:05` for a full second (truncation would flip it to `0:04` almost
/// immediately), `0:00` lasts exactly one second, and `-0:01` appears
/// exactly one second past the target.
pub fn format_countdown(target: Timestamp, now: Timestamp) -> (r: String)
    ensures
        r@ == countdown_text(secs_shown(target, now)),
{
    let nanos = target.nanos_after(now);
    let ghost shown = secs_shown(target, now);
    let mut out = String::new();
    let s: u64 = if nanos > 0 {
        let up = (nanos + 999_999_999) / 1_000_000_000;
        assert(up == shown);
        up as u64
    } else {
        let down = (-nanos) / 1_000_000_000;
        assert(-down == shown);
        if down > 0 {
            out.push('-');
        }
        down as u64
    };
    let ghost sign = out@;
    if s < 3600 {
        let m = text::show_u64(s / 60);
        out.append(m.as_str());
    } else {
        let h = text::show_u64(s / 3600);
        out.append(h.as_str());
        out.push(':');
        text::push_two_digits(&mut out, s % 3600 / 60);
    }
    out.push(':');
    text::push_two_digits(&mut out, s % 60);
    assert(out@ =~= sign + span_text(s as int));
    assert(out@ =~= countdown_text(shown));
    out
}

/// Wall clock: `HH:MM:SS` in the configured timezone.
pub fn format_clock(now: Timestamp, tz: &TimeZone) -> (r: String)
    ensures
        r@ == time::clock_face(now, time::zone_offset(tz.named(), now.secs())),
{
    time::show_clock(now, tz.offset_at(now))
}

/// Each value of a countdown is on screen for exactly one second: `v` shows
/// while no more than `v` and more than `v - 1` seconds remain.
pub proof fn law_each_value_lasts_one_second(target: Timestamp, now: Timestamp, v: int)
    ensures
        secs_shown(target, now) == v <==> (v - 1) * 1_000_000_000 < time::nanos_between(target, now)
            <= v * 1_000_000_000,
{
}

/// A countdown of `n` seconds started at `start` shows `n` less the whole
/// seconds since, before, at and past zero.
pub proof fn law_countdown_counts_whole_seconds(
    start: Timestamp,
    n: u32,
    target: Timestamp,
    now: Timestamp,
)
    requires
        start.nanos() < 1_000_000_000,
        now.nanos() < 1_000_000_000,
        target.secs() == start.secs() + n,
        target.nanos() == start.nanos(),
    ensures
        secs_shown(target, now) == n - time::nanos_between(now, start) / 1_000_000_000,
{
}

/// A countdown shows a minus from one second past its target on, and never
/// before.
pub proof fn law_minus_only_past_the_target(target: Timestamp, now: Timestamp)
    ensures
        countdown_text(secs_shown(target, now))[0] == '-' <==> time::nanos_between(target, now)
            <= -1_000_000_000,
{
    let s = secs_shown(target, now);
    let m = if s < 0 {
        -s
    } else {
        s
    };
    text::lemma_decimal_is_digits((m / 60) as nat);
    text::lemma_decimal_is_digits((m / 3600) as nat);
    let head = text::decimal((if m < 3600 { m / 60 } else { m / 3600 }) as nat);
    assert(span_text(m)[0] == head[0]);
    assert(text::is_digit(head[0]));
}

proof fn lemma_short_decimal(n: nat)
    requires
        n < 100,
    ensures
        1 <= text::decimal(n).len() <= 2,
{
    if n >= 10 {
        assert(text::decimal(n / 10) == seq![text::digit((n / 10) as int)]);
    }
}

#[verifier::spinoff_prover]
proof fn lemma_spans_differ(a: int, b: int)
    requires
        0 <= a,
        0 <= b,
        span_text(a) == span_text(b),
    ensures
        a == b,
{
    let (ta, tb) = (span_text(a), span_text(b));
    let n = ta.len() as int;
    if a < 3600 {
        lemma_short_decimal((a / 60) as nat);
    } else {
        text::lemma_decimal_is_digits((a / 3600) as nat);
    }
    if b < 3600 {
        lemma_short_decimal((b / 60) as nat);
    } else {
        text::lemma_decimal_is_digits((b / 3600) as nat);
    }
    assert(ta.subrange(n - 2, n) =~= text::two_digits(a % 60));
    assert(tb.subrange(n - 2, n) =~= text::two_digits(b % 60));
    text::lemma_two_digits_differ(a % 60, b % 60);
    if a < 3600 {
        assert(b < 3600);
        assert(ta.subrange(0, n - 3) =~= text::decimal((a / 60) as nat));
        assert(tb.subrange(0, n - 3) =~= text::decimal((b / 60) as nat));
        text::lemma_decimal_differs((a / 60) as nat, (b / 60) as nat);
    } else {
        assert(b >= 3600);
        assert(ta.subrange(n - 5, n - 3) =~= text::two_digits(a % 3600 / 60));
        assert(tb.subrange(n - 5, n - 3) =~= text::two_digits(b % 3600 / 60));
        text::lemma_two_digits_differ(a % 3600 / 60, b % 3600 / 60);
        assert(ta.subrange(0, n - 6) =~= text::decimal((a / 3600) as nat));
        assert(tb.subrange(0, n - 6) =~= text::decimal((b / 3600) as nat));
        text::lemma_decimal_differs((a / 3600) as nat, (b / 3600) as nat);
        assert(a == a / 3600 * 3600 + a % 3600 / 60 * 60 + a % 60);
        assert(b == b / 3600 * 3600 + b % 3600 / 60 * 60 + b % 60);
    }
}

/// No two values of a countdown look alike.
pub proof fn law_countdown_values_look_different(a: int, b: int)
    requires
        countdown_text(a) == countdown_text(b),
    ensures
        a == b,
{
    let ma = if a < 0 {
        -a
    } else {
        a
    };
    let mb = if b < 0 {
        -b
    } else {
        b
    };
    text::lemma_decimal_is_digits((ma / 60) as nat);
    text::lemma_decimal_is_digits((ma / 3600) as nat);
    text::lemma_decimal_is_digits((mb / 60) as nat);
    text::lemma_decimal_is_digits((mb / 3600) as nat);
    let ha = text::decimal((if ma < 3600 { ma / 60 } else { ma / 3600 }) as nat);
    let hb = text::decimal((if mb < 3600 { mb / 60 } else { mb / 3600 }) as nat);
    assert(span_text(ma)[0] == ha[0] && text::is_digit(ha[0]));
    assert(span_text(mb)[0] == hb[0] && text::is_digit(hb[0]));
    assert(countdown_text(a)[0] == countdown_text(b)[0]);
    assert(a < 0 <==> b < 0);
    if a < 0 {
        assert(countdown_text(a).skip(1) =~= span_text(ma));
        assert(countdown_text(b).skip(1) =~= span_text(mb));
    }
    lemma_spans_differ(ma, mb);
}

} // verus!
