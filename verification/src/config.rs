//! The appliance's configuration and what it must satisfy.

use vstd::prelude::*;

use crate::scene::{Flash, Rgb};
use crate::text;
use crate::time::TimeZone;

verus! {

#[derive(Debug)]
pub struct Config {
    pub display: Display,
    pub net: Net,
    pub clock: Clock,
    pub defaults: Defaults,
    pub canned: CannedMessages,
}

#[derive(Debug)]
pub struct Display {
    pub width: u32,
    pub height: u32,
    pub fps: u32,
    pub font: String,
    pub padding_x: u32,
    pub padding_y: u32,
}

#[derive(Debug, Clone, Copy)]
pub struct Net {
    pub osc_port: u16,
    pub tcp_port: u16,
    pub http_port: u16,
}

#[derive(Debug)]
pub struct Clock {
    pub timezone: TimeZone,
    pub font: String,
    pub position: ClockPosition,
}

#[derive(Debug, Clone, Copy, PartialEq, Eq, Structural)]
pub enum ClockPosition {
    TopLeft,
    TopRight,
    BottomLeft,
    BottomRight,
}

#[derive(Debug)]
pub struct Defaults {
    pub bg: Rgb,
    pub fg: Rgb,
    pub boot_scene: String,
}

#[derive(Debug)]
pub struct Canned {
    pub text: String,
    pub bg: Option<Rgb>,
    pub fg: Option<Rgb>,
    /// How this message flashes whenever it is cued.
    pub flash: Flash,
}

/// A canned message by its text.
pub struct CannedView {
    pub text: Seq<char>,
    pub bg: Option<Rgb>,
    pub fg: Option<Rgb>,
    pub flash: Flash,
}

impl View for Canned {
    type V = CannedView;

    open spec fn view(&self) -> CannedView {
        CannedView { text: self.text@, bg: self.bg, fg: self.fg, flash: self.flash }
    }
}

/// The canned messages by name; no name stands for two.
#[derive(Debug)]
pub struct CannedMessages {
    entries: Vec<(String, Canned)>,
}

impl View for CannedMessages {
    type V = Map<Seq<char>, CannedView>;

    closed spec fn view(&self) -> Map<Seq<char>, CannedView> {
        table(self.entries@)
    }
}

spec fn has_name(entries: Seq<(String, Canned)>, name: Seq<char>) -> bool {
    exists|i: int| 0 <= i < entries.len() && (#[trigger] entries[i]).0@ == name
}

spec fn place(entries: Seq<(String, Canned)>, name: Seq<char>) -> int {
    choose|i: int| 0 <= i < entries.len() && (#[trigger] entries[i]).0@ == name
}

spec fn table(entries: Seq<(String, Canned)>) -> Map<Seq<char>, CannedView> {
    Map::new(
        |name: Seq<char>| has_name(entries, name),
        |name: Seq<char>| entries[place(entries, name)].1@,
    )
}

spec fn distinct(entries: Seq<(String, Canned)>) -> bool {
    forall|i: int, j: int|
        0 <= i < j < entries.len() ==> (#[trigger] entries[i]).0@ != (#[trigger] entries[j]).0@
}

impl CannedMessages {
    #[verifier::type_invariant]
    spec fn inv(self) -> bool {
        distinct(self.entries@)
    }

    pub fn new() -> (r: CannedMessages)
        ensures
            r@ == Map::<Seq<char>, CannedView>::empty(),
    {
        let r = CannedMessages { entries: Vec::new() };
        assert(r@ =~= Map::<Seq<char>, CannedView>::empty());
        r
    }

    fn find(&self, name: &str) -> (r: Option<usize>)
        ensures
            match r {
                Some(i) => i < self.entries@.len() && self.entries@[i as int].0@ == name@,
                None => !has_name(self.entries@, name@),
            },
    {
        for i in 0..self.entries.len()
            invariant
                forall|j: int| 0 <= j < i ==> (#[trigger] self.entries@[j]).0@ != name@,
        {
            if text::same_text(self.entries[i].0.as_str(), name) {
                return Some(i);
            }
        }
        None
    }

    /// The message of this name.
    pub fn get(&self, name: &str) -> (r: Option<&Canned>)
        ensures
            match r {
                Some(c) => self@.contains_key(name@) && self@[name@] == c@,
                None => !self@.contains_key(name@),
            },
    {
        proof {
            use_type_invariant(self);
        }
        match self.find(name) {
            Some(i) => Some(&self.entries[i].1),
            None => None,
        }
    }

    pub fn contains_key(&self, name: &str) -> (r: bool)
        ensures
            r == self@.contains_key(name@),
    {
        self.find(name).is_some()
    }

    /// Set the message of this name.
    pub fn insert(&mut self, name: String, message: Canned)
        ensures
            final(self)@ == old(self)@.insert(name@, message@),
    {
        proof {
            use_type_invariant(&*self);
        }
        let at = self.find(name.as_str());
        let ghost before = self.entries@;
        let mut entries: Vec<(String, Canned)> = Vec::new();
        std::mem::swap(&mut entries, &mut self.entries);
        let ghost key = name@;
        let ghost value = message@;
        match at {
            Some(i) => {
                entries.set(i, (name, message));
            },
            None => {
                entries.push((name, message));
            },
        }
        proof {
            let after = entries@;
            assert(distinct(after)) by {
                assert forall|i: int, j: int| 0 <= i < j < after.len() implies (#[trigger] after[i]).0@
                    != (#[trigger] after[j]).0@ by {
                    if i < before.len() {
                        assert(before[i].0@ == after[i].0@);
                    }
                    if j < before.len() {
                        assert(before[j].0@ == after[j].0@);
                    }
                }
            }
            let p = match at {
                Some(i) => i as int,
                None => before.len() as int,
            };
            assert(after[p].0@ == key && after[p].1@ == value);
            assert forall|n: Seq<char>| has_name(after, n) == (n == key || has_name(before, n)) by {
                if has_name(before, n) {
                    assert(after[place(before, n)].0@ == n);
                }
                if has_name(after, n) && n != key {
                    assert(before[place(after, n)].0@ == n);
                }
            }
            assert forall|n: Seq<char>| has_name(after, n) implies #[trigger] table(after)[n]
                == table(before).insert(key, value)[n] by {
                let q = place(after, n);
                if n == key {
                    assert(q == p);
                } else {
                    assert(before[q].0@ == n);
                    let q0 = place(before, n);
                    assert(q0 == q);
                }
            }
            assert(table(after) =~= table(before).insert(key, value));
        }
        self.entries = entries;
    }
}

/// The place of the last space in `s`, or -1.
pub open spec fn last_space(s: Seq<char>) -> int
    decreases s.len(),
{
    if s.len() == 0 {
        -1
    } else if s.last() == ' ' {
        s.len() - 1
    } else {
        last_space(s.drop_last())
    }
}

/// The point size at the end of a font description, if one stands there.
pub open spec fn font_points(font: Seq<char>) -> Option<u32> {
    let i = last_space(font);
    if i < 0 {
        None
    } else {
        text::u32_value(font.skip(i + 1))
    }
}

/// A font description without its point size.
pub open spec fn family_of(font: Seq<char>) -> Seq<char> {
    if font_points(font) is Some {
        font.take(last_space(font))
    } else {
        font
    }
}

/// The largest text size of a font description in pixels: points times 4/3,
/// 120 points if it names none, saturating.
pub open spec fn max_px_of(font: Seq<char>) -> int {
    let pt: int = match font_points(font) {
        Some(p) => p as int,
        None => 120,
    };
    (if pt * 4 > u32::MAX {
        u32::MAX as int
    } else {
        pt * 4
    }) / 3
}

fn find_last_space(v: &Vec<char>) -> (r: Option<usize>)
    ensures
        match r {
            Some(i) => last_space(v@) == i && i < v.len(),
            None => last_space(v@) == -1,
        },
{
    let mut n: usize = v.len();
    assert(v@.take(n as int) =~= v@);
    while n > 0
        invariant
            n <= v.len(),
            last_space(v@.take(n as int)) == last_space(v@),
        decreases n,
    {
        if v[n - 1] == ' ' {
            return Some(n - 1);
        }
        proof {
            assert(v@.take(n as int).drop_last() =~= v@.take(n - 1));
        }
        n -= 1;
    }
    None
}

impl Display {
    /// `font` is a Pango-style description: family, optionally a trailing
    /// point size which acts as the *maximum*: text auto-shrinks below it to
    /// fit (`textoverlay` itself culls over-tall layouts, so sizing is ours).
    pub fn font_family(&self) -> (r: &str)
        ensures
            r@ == family_of(self.font@),
    {
        let v = text::chars_of(self.font.as_str());
        match find_last_space(&v) {
            Some(i) => match text::parse_u32(&v, i + 1) {
                Some(_) => {
                    assert(v@.subrange(0, i as int) =~= v@.take(i as int));
                    self.font.as_str().substring_char(0, i)
                },
                None => self.font.as_str(),
            },
            None => self.font.as_str(),
        }
    }

    /// Maximum text size in pixels (points x 4/3), default 120 pt.
    /// Saturating so an unvalidated size can never wrap; validation
    /// rejects out-of-range values with a real error message.
    pub fn max_font_px(&self) -> (px: u32)
        ensures
            px == max_px_of(self.font@),
    {
        let v = text::chars_of(self.font.as_str());
        let pt: u32 = match find_last_space(&v) {
            Some(i) => match text::parse_u32(&v, i + 1) {
                Some(p) => p,
                None => 120,
            },
            None => 120,
        };
        let scaled: u32 = if pt <= u32::MAX / 4 {
            pt * 4
        } else {
            u32::MAX
        };
        scaled / 3
    }
}

/// The font description that asks for `family` at `px` pixels.
pub open spec fn sized_font(family: Seq<char>, px: int) -> Seq<char> {
    family + " "@ + text::decimal(px as nat) + "px"@
}

/// The font description that asks for `family` at `px` pixels.
pub fn font_desc(family: &str, px: u32) -> (r: String)
    ensures
        r@ == sized_font(family@, px as int),
{
    let mut s = family.to_owned();
    s.append(" ");
    let n = text::show_u64(px as u64);
    s.append(n.as_str());
    s.append("px");
    s
}

/// Where the clock layer sits in a corner: horizontal and vertical alignment.
pub open spec fn aligned(p: ClockPosition) -> (Seq<char>, Seq<char>) {
    match p {
        ClockPosition::TopLeft => ("left"@, "top"@),
        ClockPosition::TopRight => ("right"@, "top"@),
        ClockPosition::BottomLeft => ("left"@, "bottom"@),
        ClockPosition::BottomRight => ("right"@, "bottom"@),
    }
}

impl ClockPosition {
    /// Where the clock layer sits: horizontal and vertical alignment.
    pub fn alignment(self) -> (r: (&'static str, &'static str))
        ensures
            (r.0@, r.1@) == aligned(self),
    {
        match self {
            ClockPosition::TopLeft => ("left", "top"),
            ClockPosition::TopRight => ("right", "top"),
            ClockPosition::BottomLeft => ("left", "bottom"),
            ClockPosition::BottomRight => ("right", "bottom"),
        }
    }
}

/// What is wrong with a configuration.
#[derive(Debug, PartialEq, Eq)]
pub enum ConfigError {
    Size { width: u32, height: u32 },
    Fps(u32),
    Padding { padding_x: u32, padding_y: u32, width: u32, height: u32 },
    Font { font: String, px: u32 },
    BootScene(String),
}

/// What is wrong with a configuration, by its texts.
pub enum ConfigErrorView {
    Size { width: u32, height: u32 },
    Fps(u32),
    Padding { padding_x: u32, padding_y: u32, width: u32, height: u32 },
    Font { font: Seq<char>, px: u32 },
    BootScene(Seq<char>),
}

impl View for ConfigError {
    type V = ConfigErrorView;

    open spec fn view(&self) -> ConfigErrorView {
        match *self {
            ConfigError::Size { width, height } => ConfigErrorView::Size { width, height },
            ConfigError::Fps(fps) => ConfigErrorView::Fps(fps),
            ConfigError::Padding { padding_x, padding_y, width, height } => ConfigErrorView::Padding {
                padding_x,
                padding_y,
                width,
                height,
            },
            ConfigError::Font { font, px } => ConfigErrorView::Font { font: font@, px },
            ConfigError::BootScene(name) => ConfigErrorView::BootScene(name@),
        }
    }
}

/// What is said of a configuration.
pub open spec fn config_complaint(e: ConfigErrorView) -> Seq<char> {
    match e {
        ConfigErrorView::Size { width, height } => "display "@ + text::decimal(width as nat) + "x"@
            + text::decimal(height as nat) + " is outside 64x64..7680x4320"@,
        ConfigErrorView::Fps(fps) => "display.fps "@ + text::decimal(fps as nat)
            + " is outside 1..240"@,
        ConfigErrorView::Padding { padding_x, padding_y, width, height } => "padding "@
            + text::decimal(padding_x as nat) + "x"@ + text::decimal(padding_y as nat)
            + " leaves no room inside "@ + text::decimal(width as nat) + "x"@ + text::decimal(
            height as nat,
        ),
        ConfigErrorView::Font { font, px } => "display.font size "@ + text::debug_quoted(font)
            + " maps to "@ + text::decimal(px as nat) + " px, outside 8..2000"@,
        ConfigErrorView::BootScene(name) => "defaults.boot_scene "@ + text::debug_quoted(name)
            + " is not a canned message"@,
    }
}

impl ConfigError {
    pub fn to_string(&self) -> (r: String)
        ensures
            r@ == config_complaint(self@),
    {
        match self {
            ConfigError::Size { width, height } => {
                let mut s = "display ".to_owned();
                let w = text::show_u64(*width as u64);
                s.append(w.as_str());
                s.append("x");
                let h = text::show_u64(*height as u64);
                s.append(h.as_str());
                s.append(" is outside 64x64..7680x4320");
                s
            },
            ConfigError::Fps(fps) => {
                let mut s = "display.fps ".to_owned();
                let n = text::show_u64(*fps as u64);
                s.append(n.as_str());
                s.append(" is outside 1..240");
                s
            },
            ConfigError::Padding { padding_x, padding_y, width, height } => {
                let mut s = "padding ".to_owned();
                let px = text::show_u64(*padding_x as u64);
                s.append(px.as_str());
                s.append("x");
                let py = text::show_u64(*padding_y as u64);
                s.append(py.as_str());
                s.append(" leaves no room inside ");
                let w = text::show_u64(*width as u64);
                s.append(w.as_str());
                s.append("x");
                let h = text::show_u64(*height as u64);
                s.append(h.as_str());
                s
            },
            ConfigError::Font { font, px } => {
                let mut s = "display.font size ".to_owned();
                let quoted = text::quote_debug(font.as_str());
                s.append(quoted.as_str());
                s.append(" maps to ");
                let n = text::show_u64(*px as u64);
                s.append(n.as_str());
                s.append(" px, outside 8..2000");
                s
            },
            ConfigError::BootScene(name) => {
                let mut s = "defaults.boot_scene ".to_owned();
                let quoted = text::quote_debug(name.as_str());
                s.append(quoted.as_str());
                s.append(" is not a canned message");
                s
            },
        }
    }
}

/// The first thing wrong with a configuration, if anything is.
pub open spec fn config_fault(c: Config) -> Option<ConfigErrorView> {
    let d = c.display;
    if !(64 <= d.width <= 7680 && 64 <= d.height <= 4320) {
        Some(ConfigErrorView::Size { width: d.width, height: d.height })
    } else if !(1 <= d.fps <= 240) {
        Some(ConfigErrorView::Fps(d.fps))
    } else if !(2 * d.padding_x < d.width && 2 * d.padding_y < d.height) {
        Some(
            ConfigErrorView::Padding {
                padding_x: d.padding_x,
                padding_y: d.padding_y,
                width: d.width,
                height: d.height,
            },
        )
    } else if !(8 <= max_px_of(d.font@) <= 2000) {
        Some(ConfigErrorView::Font { font: d.font@, px: max_px_of(d.font@) as u32 })
    } else if !c.canned@.contains_key(c.defaults.boot_scene@) {
        Some(ConfigErrorView::BootScene(c.defaults.boot_scene@))
    } else {
        None
    }
}

impl Config {
    /// Reject configs the renderer can't do anything sensible with. Values
    /// that pass here are safe for the arithmetic in the fit computation.
    pub fn validate(&self) -> (r: Result<(), ConfigError>)
        ensures
            match r {
                Ok(_) => config_fault(*self) is None,
                Err(e) => config_fault(*self) == Some(e@),
            },
    {
        let d = &self.display;
        if !(64 <= d.width && d.width <= 7680 && 64 <= d.height && d.height <= 4320) {
            return Err(ConfigError::Size { width: d.width, height: d.height });
        }
        if !(1 <= d.fps && d.fps <= 240) {
            return Err(ConfigError::Fps(d.fps));
        }
        if !(2 * (d.padding_x as u64) < d.width as u64 && 2 * (d.padding_y as u64)
            < d.height as u64) {
            return Err(
                ConfigError::Padding {
                    padding_x: d.padding_x,
                    padding_y: d.padding_y,
                    width: d.width,
                    height: d.height,
                },
            );
        }
        let px = d.max_font_px();
        if !(8 <= px && px <= 2000) {
            return Err(ConfigError::Font { font: d.font.clone(), px });
        }
        if !self.canned.contains_key(self.defaults.boot_scene.as_str()) {
            return Err(ConfigError::BootScene(self.defaults.boot_scene.clone()));
        }
        Ok(())
    }
}

/// A configuration that passes leaves room for text: the frame is wider and
/// taller than its padding, the largest text size is within bounds, and the boot
/// scene names a canned message.
pub proof fn law_valid_config_leaves_room(c: Config)
    requires
        config_fault(c) is None,
    ensures
        c.display.width - 2 * c.display.padding_x >= 1,
        c.display.height - 2 * c.display.padding_y >= 1,
        8 <= max_px_of(c.display.font@) <= 2000,
        c.canned@.contains_key(c.defaults.boot_scene@),
{
}

} // verus!
